//! Decoder for the 5.4-layout image family: its header, constants, instruction words
//! with opcode renumbering, and the recursive prototype records.
use vstd::prelude::*;
use crate::prim::{
    load_string, lua_int, read_u8, read_uint, spec_byte, spec_string, spec_uint, spec_unsigned,
    INT_LIMIT,
};
use crate::table::{counted, lemma_counted_len, lemma_many_err, many, Item};
use crate::types::{
    constants_view, locals_view, names_view, view_res, Constant, ConstantV, DecodeError, Local,
    LocalV, SpecRes, UpVal, Chunk, ChunkV, chunk_view, Header,
};

verus! {

/// Opcodes whose on-disk number is replaced before the gap adjustment.
pub open spec fn substituted(op: u8) -> u8 {
    if op == 0x0a {
        0
    } else if op <= 9 {
        (op + 1) as u8
    } else {
        op
    }
}

/// Canonical opcodes that the on-disk numbering leaves out, in increasing order.
pub const OPCODE_GAPS: [u8; 20] = [
    0x0b, 0x10, 0x15, 0x17, 0x19, 0x1b, 0x37, 0x3c, 0x3e, 0x45,
    0x4c, 0x4f, 0x52, 0x56, 0x59, 0x5d, 0x5f, 0x61, 0x63, 0x65,
];

pub open spec fn gaps() -> Seq<u8> {
    seq![
        0x0bu8, 0x10, 0x15, 0x17, 0x19, 0x1b, 0x37, 0x3c, 0x3e, 0x45,
        0x4c, 0x4f, 0x52, 0x56, 0x59, 0x5d, 0x5f, 0x61, 0x63, 0x65,
    ]
}

/// How many of the first `n` gaps lie strictly below `op`.
pub open spec fn gaps_below(op: u8, n: nat) -> nat
    decreases n,
{
    if n == 0 {
        0
    } else {
        gaps_below(op, (n - 1) as nat) + if op > gaps()[n - 1] {
            1nat
        } else {
            0nat
        }
    }
}

/// The canonical number of an on-disk opcode.
pub open spec fn spec_remap(op: u8) -> u8 {
    (substituted(op) - gaps_below(substituted(op), 20)) as u8
}

proof fn lemma_gaps_below_bound(op: u8, n: nat)
    requires
        n <= 20,
    ensures
        gaps_below(op, n) <= n,
        op <= 0x0b ==> gaps_below(op, n) == 0,
        gaps_below(op, n) <= op,
    decreases n,
{
    if n > 0 {
        lemma_gaps_below_bound(op, (n - 1) as nat);
        assert(gaps()[n - 1] >= 0x0b + (n - 1));
    }
}

/// Renumbers an on-disk opcode into the canonical numbering.
pub fn remap_opcode(opcode: u8) -> (r: u8)
    ensures
        r == spec_remap(opcode),
{
    let table = OPCODE_GAPS;
    let original: u8 = if opcode == 0x0a {
        0
    } else if opcode <= 9 {
        opcode + 1
    } else {
        opcode
    };
    let mut below: u8 = 0;
    let mut i: usize = 0;
    assert(table@ == gaps());
    while i < 20
        invariant
            i <= 20,
            table@ == gaps(),
            below as nat == gaps_below(original, i as nat),
            original == substituted(opcode),
        decreases 20 - i,
    {
        proof {
            lemma_gaps_below_bound(original, i as nat);
        }
        if original > table[i] {
            below = below + 1;
        }
        i = i + 1;
    }
    proof {
        lemma_gaps_below_bound(original, 20);
    }
    original - below
}

/// An instruction word whose low seven bits (the opcode) are renumbered.
pub open spec fn remapped_word(raw: u32) -> u32 {
    (raw & !0x7fu32) | (spec_remap((raw & 0x7f) as u8) as u32)
}

/// Reads one 32-bit instruction word in the image's byte order and renumbers its opcode.
pub open spec fn spec_instruction(s: Seq<u8>, pos: usize, big_endian: bool) -> SpecRes<u32> {
    match spec_uint(s, pos, 4, big_endian) {
        Err(e) => Err(e),
        Ok((w, p)) => Ok((remapped_word(w as u32), p)),
    }
}

pub fn lua_instruction(input: &[u8], pos: usize, big_endian: bool) -> (r: Result<
    (u32, usize),
    DecodeError,
>)
    ensures
        r == spec_instruction(input@, pos, big_endian),
{
    let (w, p) = read_uint(input, pos, 4, big_endian)?;
    let raw = w as u32;
    let op = (raw & 0x7f) as u8;
    let code = remap_opcode(op);
    Ok(((raw & !0x7fu32) | code as u32, p))
}

/// Tag bytes of the constant pool.
pub const TAG_NIL: u8 = 0x00;
pub const TAG_FALSE: u8 = 0x01;
pub const TAG_INTEGER: u8 = 0x03;
pub const TAG_SHORT_STRING: u8 = 0x04;
pub const TAG_TRUE: u8 = 0x11;
pub const TAG_FLOAT: u8 = 0x13;
pub const TAG_LONG_STRING: u8 = 0x14;

/// Decodes the payload that follows constant tag `tag`, which ended at `p`.
pub open spec fn spec_payload(s: Seq<u8>, tag: u8, p: usize, pos: usize) -> SpecRes<ConstantV> {
    if tag == TAG_NIL {
        Ok((ConstantV::Null, p))
    } else if tag == TAG_FALSE {
        Ok((ConstantV::Bool(false), p))
    } else if tag == TAG_TRUE {
        Ok((ConstantV::Bool(true), p))
    } else if tag == TAG_FLOAT {
        match spec_uint(s, p, 8, false) {
            Err(e) => Err(e),
            Ok((v, q)) => Ok((ConstantV::Float(v), q)),
        }
    } else if tag == TAG_SHORT_STRING || tag == TAG_LONG_STRING {
        match spec_string(s, p) {
            Err(e) => Err(e),
            Ok((b, q)) => Ok((ConstantV::Str(b), q)),
        }
    } else if tag == TAG_INTEGER {
        match spec_uint(s, p, 8, false) {
            Err(e) => Err(e),
            Ok((v, q)) => Ok((ConstantV::Integer(v as i64), q)),
        }
    } else {
        Err(DecodeError::UnknownConstantTag { tag, offset: pos })
    }
}

/// A tagged constant: one tag byte, then the payload that the tag calls for.
pub open spec fn spec_constant(s: Seq<u8>, pos: usize) -> SpecRes<ConstantV> {
    match spec_byte(s, pos) {
        Err(e) => Err(e),
        Ok((tag, p)) => spec_payload(s, tag, p, pos),
    }
}

/// What a decoder of the constants with tags `tags` returns: the constant where
/// the tag at `pos` is one of them, a tag error where it is another.
pub open spec fn take_tagged(
    s: Seq<u8>,
    pos: usize,
    tags: Set<u8>,
    r: Result<(Constant, usize), DecodeError>,
) -> bool {
    if pos >= s.len() {
        r == Err::<(Constant, usize), DecodeError>(DecodeError::UnexpectedEof { offset: pos })
    } else if tags.contains(s[pos as int]) {
        view_res(r) == spec_constant(s, pos)
    } else {
        r == Err::<(Constant, usize), DecodeError>(
            DecodeError::UnknownConstantTag { tag: s[pos as int], offset: pos },
        )
    }
}

/// Decodes a nil constant.
pub fn take_lv_nil(input: &[u8], pos: usize) -> (r: Result<(Constant, usize), DecodeError>)
    ensures
        take_tagged(input@, pos, set![TAG_NIL], r),
{
    let (tag, p) = read_u8(input, pos)?;
    if tag != TAG_NIL {
        return Err(DecodeError::UnknownConstantTag { tag, offset: pos });
    }
    Ok((Constant::Null, p))
}

/// Decodes a false constant.
pub fn take_lv_false(input: &[u8], pos: usize) -> (r: Result<(Constant, usize), DecodeError>)
    ensures
        take_tagged(input@, pos, set![TAG_FALSE], r),
{
    let (tag, p) = read_u8(input, pos)?;
    if tag != TAG_FALSE {
        return Err(DecodeError::UnknownConstantTag { tag, offset: pos });
    }
    Ok((Constant::Bool(false), p))
}

/// Decodes a true constant.
pub fn take_lv_true(input: &[u8], pos: usize) -> (r: Result<(Constant, usize), DecodeError>)
    ensures
        take_tagged(input@, pos, set![TAG_TRUE], r),
{
    let (tag, p) = read_u8(input, pos)?;
    if tag != TAG_TRUE {
        return Err(DecodeError::UnknownConstantTag { tag, offset: pos });
    }
    Ok((Constant::Bool(true), p))
}

/// Decodes a float constant: eight little-endian bytes, kept as a bit pattern.
pub fn take_lv_float(input: &[u8], pos: usize) -> (r: Result<(Constant, usize), DecodeError>)
    ensures
        take_tagged(input@, pos, set![TAG_FLOAT], r),
{
    let (tag, p) = read_u8(input, pos)?;
    if tag != TAG_FLOAT {
        return Err(DecodeError::UnknownConstantTag { tag, offset: pos });
    }
    let (bits, q) = read_uint(input, p, 8, false)?;
    Ok((Constant::Float(bits), q))
}

/// Decodes a short or long string constant.
pub fn take_lv_str(input: &[u8], pos: usize) -> (r: Result<(Constant, usize), DecodeError>)
    ensures
        take_tagged(input@, pos, set![TAG_SHORT_STRING, TAG_LONG_STRING], r),
{
    let (tag, p) = read_u8(input, pos)?;
    if tag != TAG_SHORT_STRING && tag != TAG_LONG_STRING {
        return Err(DecodeError::UnknownConstantTag { tag, offset: pos });
    }
    let (data, q) = load_string(input, p)?;
    Ok((Constant::Str(data), q))
}

/// Decodes an integer constant: eight little-endian bytes.
pub fn take_lv_u64(input: &[u8], pos: usize) -> (r: Result<(Constant, usize), DecodeError>)
    ensures
        take_tagged(input@, pos, set![TAG_INTEGER], r),
{
    let (tag, p) = read_u8(input, pos)?;
    if tag != TAG_INTEGER {
        return Err(DecodeError::UnknownConstantTag { tag, offset: pos });
    }
    let (val, q) = read_uint(input, p, 8, false)?;
    Ok((Constant::Integer(val as i64), q))
}

/// Decodes one tagged constant.
pub fn lua_constant(input: &[u8], pos: usize) -> (r: Result<(Constant, usize), DecodeError>)
    ensures
        view_res(r) == spec_constant(input@, pos),
{
    if pos >= input.len() {
        return Err(DecodeError::UnexpectedEof { offset: pos });
    }
    let tag = input[pos];
    if tag == TAG_NIL {
        take_lv_nil(input, pos)
    } else if tag == TAG_FALSE {
        take_lv_false(input, pos)
    } else if tag == TAG_TRUE {
        take_lv_true(input, pos)
    } else if tag == TAG_FLOAT {
        take_lv_float(input, pos)
    } else if tag == TAG_SHORT_STRING || tag == TAG_LONG_STRING {
        take_lv_str(input, pos)
    } else if tag == TAG_INTEGER {
        take_lv_u64(input, pos)
    } else {
        Err(DecodeError::UnknownConstantTag { tag, offset: pos })
    }
}

/// An upvalue descriptor: three single bytes.
pub open spec fn spec_upvalue(s: Seq<u8>, pos: usize) -> SpecRes<UpVal> {
    match spec_byte(s, pos) {
        Err(e) => Err(e),
        Ok((a, p1)) => match spec_byte(s, p1) {
            Err(e) => Err(e),
            Ok((b, p2)) => match spec_byte(s, p2) {
                Err(e) => Err(e),
                Ok((c, p3)) => Ok((UpVal { on_stack: a != 0, id: b, kind: c }, p3)),
            },
        },
    }
}

/// Decodes an upvalue descriptor.
pub fn load_upvalue(input: &[u8], pos: usize) -> (r: Result<(UpVal, usize), DecodeError>)
    ensures
        r == spec_upvalue(input@, pos),
{
    let (on_stack, p) = read_u8(input, pos)?;
    let (id, p) = read_u8(input, p)?;
    let (kind, p) = read_u8(input, p)?;
    Ok((UpVal { on_stack: on_stack != 0, id, kind }, p))
}

/// A local variable record: a name, then its first and last instruction index.
pub open spec fn spec_local(s: Seq<u8>, pos: usize) -> SpecRes<LocalV> {
    match spec_string(s, pos) {
        Err(e) => Err(e),
        Ok((name, p1)) => match spec_unsigned(s, p1, INT_LIMIT) {
            Err(e) => Err(e),
            Ok((start_pc, p2)) => match spec_unsigned(s, p2, INT_LIMIT) {
                Err(e) => Err(e),
                Ok((end_pc, p3)) => Ok((LocalV { name, start_pc, end_pc }, p3)),
            },
        },
    }
}

/// Decodes a local variable record.
pub fn lua_local(input: &[u8], pos: usize) -> (r: Result<(Local, usize), DecodeError>)
    ensures
        view_res(r) == spec_local(input@, pos),
{
    let (name, p) = load_string(input, pos)?;
    let (start_pc, p) = lua_int(input, p)?;
    let (end_pc, p) = lua_int(input, p)?;
    Ok((Local { name, start_pc, end_pc }, p))
}

/// A source-line range pair: two integer fields, kept as 32-bit values.
pub open spec fn spec_source_line(s: Seq<u8>, pos: usize) -> SpecRes<(u32, u32)> {
    match spec_unsigned(s, pos, INT_LIMIT) {
        Err(e) => Err(e),
        Ok((a, p1)) => match spec_unsigned(s, p1, INT_LIMIT) {
            Err(e) => Err(e),
            Ok((b, p2)) => Ok(((a as u32, b as u32), p2)),
        },
    }
}

/// Decodes a source-line range pair.
pub fn load_source_line(input: &[u8], pos: usize) -> (r: Result<((u32, u32), usize), DecodeError>)
    ensures
        r == spec_source_line(input@, pos),
{
    let (a, p) = lua_int(input, pos)?;
    let (b, p) = lua_int(input, p)?;
    Ok(((a as u32, b as u32), p))
}

pub open spec fn instruction_item(big_endian: bool) -> Item<u32> {
    |s: Seq<u8>, p: usize| spec_instruction(s, p, big_endian)
}

pub open spec fn constant_item() -> Item<ConstantV> {
    |s: Seq<u8>, p: usize| spec_constant(s, p)
}

pub open spec fn upvalue_item() -> Item<UpVal> {
    |s: Seq<u8>, p: usize| spec_upvalue(s, p)
}

pub open spec fn byte_item() -> Item<u8> {
    |s: Seq<u8>, p: usize| spec_byte(s, p)
}

pub open spec fn source_line_item() -> Item<(u32, u32)> {
    |s: Seq<u8>, p: usize| spec_source_line(s, p)
}

pub open spec fn local_item() -> Item<LocalV> {
    |s: Seq<u8>, p: usize| spec_local(s, p)
}

pub open spec fn string_item() -> Item<Seq<u8>> {
    |s: Seq<u8>, p: usize| spec_string(s, p)
}

/// Decodes a count-prefixed table of instruction words.
pub fn load_instructions(input: &[u8], pos: usize, big_endian: bool) -> (r: Result<(Vec<u32>, usize), DecodeError>)
    ensures
        match r {
            Ok((v, q)) => counted(input@, pos, instruction_item(big_endian)) == Ok::<(Seq<u32>, usize), DecodeError>(((v@), q)),
            Err(e) => counted(input@, pos, instruction_item(big_endian)) == Err::<(Seq<u32>, usize), DecodeError>(e),
        },
{
    let ghost s = input@;
    let (n, start) = lua_int(input, pos)?;
    let mut v: Vec<u32> = Vec::new();
    let mut p: usize = start;
    let mut i: u64 = 0;
    while i < n
        invariant
            s == input@,
            i <= n,
            spec_unsigned(s, pos, INT_LIMIT) == Ok::<(u64, usize), DecodeError>((n, start)),
            many(s, start, i as nat, instruction_item(big_endian)) == Ok::<(Seq<u32>, usize), DecodeError>(((v@), p)),
        decreases n - i,
    {
        match lua_instruction(input, p, big_endian) {
            Err(e) => {
                proof {
                    lemma_many_err(s, start, (i + 1) as nat, n as nat, instruction_item(big_endian));
                }
                return Err(e);
            },
            Ok((x, q)) => {
                let ghost before = v@;
                v.push(x);
                proof {
                    assert((v@) =~= (before).push(x));
                }
                p = q;
            },
        }
        i = i + 1;
    }
    Ok((v, p))
}

/// Decodes a count-prefixed table of tagged constants.
pub fn load_constants(input: &[u8], pos: usize) -> (r: Result<(Vec<Constant>, usize), DecodeError>)
    ensures
        match r {
            Ok((v, q)) => counted(input@, pos, constant_item()) == Ok::<(Seq<ConstantV>, usize), DecodeError>((constants_view(v@), q)),
            Err(e) => counted(input@, pos, constant_item()) == Err::<(Seq<ConstantV>, usize), DecodeError>(e),
        },
{
    let ghost s = input@;
    let (n, start) = lua_int(input, pos)?;
    let mut v: Vec<Constant> = Vec::new();
    let mut p: usize = start;
    let mut i: u64 = 0;
    proof {
        assert(constants_view(v@) =~= Seq::<ConstantV>::empty());
    }
    while i < n
        invariant
            s == input@,
            i <= n,
            spec_unsigned(s, pos, INT_LIMIT) == Ok::<(u64, usize), DecodeError>((n, start)),
            many(s, start, i as nat, constant_item()) == Ok::<(Seq<ConstantV>, usize), DecodeError>((constants_view(v@), p)),
        decreases n - i,
    {
        match lua_constant(input, p) {
            Err(e) => {
                proof {
                    lemma_many_err(s, start, (i + 1) as nat, n as nat, constant_item());
                }
                return Err(e);
            },
            Ok((x, q)) => {
                let ghost before = v@;
                v.push(x);
                proof {
                    assert(constants_view(v@) =~= constants_view(before).push(x@));
                }
                p = q;
            },
        }
        i = i + 1;
    }
    Ok((v, p))
}

/// Decodes a count-prefixed table of upvalue descriptors.
pub fn load_upvalues(input: &[u8], pos: usize) -> (r: Result<(Vec<UpVal>, usize), DecodeError>)
    ensures
        match r {
            Ok((v, q)) => counted(input@, pos, upvalue_item()) == Ok::<(Seq<UpVal>, usize), DecodeError>(((v@), q)),
            Err(e) => counted(input@, pos, upvalue_item()) == Err::<(Seq<UpVal>, usize), DecodeError>(e),
        },
{
    let ghost s = input@;
    let (n, start) = lua_int(input, pos)?;
    let mut v: Vec<UpVal> = Vec::new();
    let mut p: usize = start;
    let mut i: u64 = 0;
    while i < n
        invariant
            s == input@,
            i <= n,
            spec_unsigned(s, pos, INT_LIMIT) == Ok::<(u64, usize), DecodeError>((n, start)),
            many(s, start, i as nat, upvalue_item()) == Ok::<(Seq<UpVal>, usize), DecodeError>(((v@), p)),
        decreases n - i,
    {
        match load_upvalue(input, p) {
            Err(e) => {
                proof {
                    lemma_many_err(s, start, (i + 1) as nat, n as nat, upvalue_item());
                }
                return Err(e);
            },
            Ok((x, q)) => {
                let ghost before = v@;
                v.push(x);
                proof {
                    assert((v@) =~= (before).push(x));
                }
                p = q;
            },
        }
        i = i + 1;
    }
    Ok((v, p))
}

/// Decodes a count-prefixed table of per-instruction line bytes.
pub fn load_line_info(input: &[u8], pos: usize) -> (r: Result<(Vec<u8>, usize), DecodeError>)
    ensures
        match r {
            Ok((v, q)) => counted(input@, pos, byte_item()) == Ok::<(Seq<u8>, usize), DecodeError>(((v@), q)),
            Err(e) => counted(input@, pos, byte_item()) == Err::<(Seq<u8>, usize), DecodeError>(e),
        },
{
    let ghost s = input@;
    let (n, start) = lua_int(input, pos)?;
    let mut v: Vec<u8> = Vec::new();
    let mut p: usize = start;
    let mut i: u64 = 0;
    while i < n
        invariant
            s == input@,
            i <= n,
            spec_unsigned(s, pos, INT_LIMIT) == Ok::<(u64, usize), DecodeError>((n, start)),
            many(s, start, i as nat, byte_item()) == Ok::<(Seq<u8>, usize), DecodeError>(((v@), p)),
        decreases n - i,
    {
        match read_u8(input, p) {
            Err(e) => {
                proof {
                    lemma_many_err(s, start, (i + 1) as nat, n as nat, byte_item());
                }
                return Err(e);
            },
            Ok((x, q)) => {
                let ghost before = v@;
                v.push(x);
                proof {
                    assert((v@) =~= (before).push(x));
                }
                p = q;
            },
        }
        i = i + 1;
    }
    Ok((v, p))
}

/// Decodes a count-prefixed table of source-line range pairs.
pub fn load_source_lines(input: &[u8], pos: usize) -> (r: Result<(Vec<(u32, u32)>, usize), DecodeError>)
    ensures
        match r {
            Ok((v, q)) => counted(input@, pos, source_line_item()) == Ok::<(Seq<(u32, u32)>, usize), DecodeError>(((v@), q)),
            Err(e) => counted(input@, pos, source_line_item()) == Err::<(Seq<(u32, u32)>, usize), DecodeError>(e),
        },
{
    let ghost s = input@;
    let (n, start) = lua_int(input, pos)?;
    let mut v: Vec<(u32, u32)> = Vec::new();
    let mut p: usize = start;
    let mut i: u64 = 0;
    while i < n
        invariant
            s == input@,
            i <= n,
            spec_unsigned(s, pos, INT_LIMIT) == Ok::<(u64, usize), DecodeError>((n, start)),
            many(s, start, i as nat, source_line_item()) == Ok::<(Seq<(u32, u32)>, usize), DecodeError>(((v@), p)),
        decreases n - i,
    {
        match load_source_line(input, p) {
            Err(e) => {
                proof {
                    lemma_many_err(s, start, (i + 1) as nat, n as nat, source_line_item());
                }
                return Err(e);
            },
            Ok((x, q)) => {
                let ghost before = v@;
                v.push(x);
                proof {
                    assert((v@) =~= (before).push(x));
                }
                p = q;
            },
        }
        i = i + 1;
    }
    Ok((v, p))
}

/// Decodes a count-prefixed table of local variable records.
pub fn load_locals(input: &[u8], pos: usize) -> (r: Result<(Vec<Local>, usize), DecodeError>)
    ensures
        match r {
            Ok((v, q)) => counted(input@, pos, local_item()) == Ok::<(Seq<LocalV>, usize), DecodeError>((locals_view(v@), q)),
            Err(e) => counted(input@, pos, local_item()) == Err::<(Seq<LocalV>, usize), DecodeError>(e),
        },
{
    let ghost s = input@;
    let (n, start) = lua_int(input, pos)?;
    let mut v: Vec<Local> = Vec::new();
    let mut p: usize = start;
    let mut i: u64 = 0;
    proof {
        assert(locals_view(v@) =~= Seq::<LocalV>::empty());
    }
    while i < n
        invariant
            s == input@,
            i <= n,
            spec_unsigned(s, pos, INT_LIMIT) == Ok::<(u64, usize), DecodeError>((n, start)),
            many(s, start, i as nat, local_item()) == Ok::<(Seq<LocalV>, usize), DecodeError>((locals_view(v@), p)),
        decreases n - i,
    {
        match lua_local(input, p) {
            Err(e) => {
                proof {
                    lemma_many_err(s, start, (i + 1) as nat, n as nat, local_item());
                }
                return Err(e);
            },
            Ok((x, q)) => {
                let ghost before = v@;
                v.push(x);
                proof {
                    assert(locals_view(v@) =~= locals_view(before).push(x@));
                }
                p = q;
            },
        }
        i = i + 1;
    }
    Ok((v, p))
}

/// Decodes a count-prefixed table of upvalue names.
pub fn load_upvalue_names(input: &[u8], pos: usize) -> (r: Result<(Vec<Vec<u8>>, usize), DecodeError>)
    ensures
        match r {
            Ok((v, q)) => counted(input@, pos, string_item()) == Ok::<(Seq<Seq<u8>>, usize), DecodeError>((names_view(v@), q)),
            Err(e) => counted(input@, pos, string_item()) == Err::<(Seq<Seq<u8>>, usize), DecodeError>(e),
        },
{
    let ghost s = input@;
    let (n, start) = lua_int(input, pos)?;
    let mut v: Vec<Vec<u8>> = Vec::new();
    let mut p: usize = start;
    let mut i: u64 = 0;
    proof {
        assert(names_view(v@) =~= Seq::<Seq<u8>>::empty());
    }
    while i < n
        invariant
            s == input@,
            i <= n,
            spec_unsigned(s, pos, INT_LIMIT) == Ok::<(u64, usize), DecodeError>((n, start)),
            many(s, start, i as nat, string_item()) == Ok::<(Seq<Seq<u8>>, usize), DecodeError>((names_view(v@), p)),
        decreases n - i,
    {
        match load_string(input, p) {
            Err(e) => {
                proof {
                    lemma_many_err(s, start, (i + 1) as nat, n as nat, string_item());
                }
                return Err(e);
            },
            Ok((x, q)) => {
                let ghost before = v@;
                v.push(x);
                proof {
                    assert(names_view(v@) =~= names_view(before).push(x@));
                }
                p = q;
            },
        }
        i = i + 1;
    }
    Ok((v, p))
}

/// Deepest nesting of prototypes that the decoder accepts.
pub const MAX_NESTING: u64 = 200;

/// The fixed fields that open a prototype record: name, first and last line,
/// parameter count, variadic flag and maximum stack size.
pub open spec fn spec_chunk_head(s: Seq<u8>, pos: usize) -> SpecRes<(Seq<u8>, u64, u64, u8, u8, u8)> {
    match spec_string(s, pos) {
        Err(e) => Err(e),
        Ok((name, p1)) => match spec_unsigned(s, p1, INT_LIMIT) {
            Err(e) => Err(e),
            Ok((line, p2)) => match spec_unsigned(s, p2, INT_LIMIT) {
                Err(e) => Err(e),
                Ok((last, p3)) => match spec_byte(s, p3) {
                    Err(e) => Err(e),
                    Ok((params, p4)) => match spec_byte(s, p4) {
                        Err(e) => Err(e),
                        Ok((vararg, p5)) => match spec_byte(s, p5) {
                            Err(e) => Err(e),
                            Ok((stack, p6)) => Ok(((name, line, last, params, vararg, stack), p6)),
                        },
                    },
                },
            },
        },
    }
}

/// The instruction, constant and upvalue tables of a prototype record.
pub open spec fn spec_chunk_tables(s: Seq<u8>, pos: usize, big_endian: bool) -> SpecRes<
    (Seq<u32>, Seq<ConstantV>, Seq<UpVal>),
> {
    match counted(s, pos, instruction_item(big_endian)) {
        Err(e) => Err(e),
        Ok((code, p1)) => match counted(s, p1, constant_item()) {
            Err(e) => Err(e),
            Ok((consts, p2)) => match counted(s, p2, upvalue_item()) {
                Err(e) => Err(e),
                Ok((upvals, p3)) => Ok(((code, consts, upvals), p3)),
            },
        },
    }
}

/// The debug tables that close a prototype record: line bytes, source-line pairs,
/// locals and upvalue names.
pub open spec fn spec_chunk_debug(s: Seq<u8>, pos: usize) -> SpecRes<
    (Seq<u8>, Seq<(u32, u32)>, Seq<LocalV>, Seq<Seq<u8>>),
> {
    match counted(s, pos, byte_item()) {
        Err(e) => Err(e),
        Ok((lines, p1)) => match counted(s, p1, source_line_item()) {
            Err(e) => Err(e),
            Ok((ranges, p2)) => match counted(s, p2, local_item()) {
                Err(e) => Err(e),
                Ok((locals, p3)) => match counted(s, p3, string_item()) {
                    Err(e) => Err(e),
                    Ok((names, p4)) => Ok(((lines, ranges, locals, names), p4)),
                },
            },
        },
    }
}

/// One prototype record whose nested prototypes may go `room - 1` levels deeper.
pub open spec fn spec_chunk(s: Seq<u8>, pos: usize, big_endian: bool, room: nat) -> SpecRes<ChunkV>
    decreases room, 0nat,
{
    if room == 0 {
        Err(DecodeError::NestingTooDeep { offset: pos })
    } else {
        match spec_chunk_head(s, pos) {
            Err(e) => Err(e),
            Ok((head, p1)) => match spec_chunk_tables(s, p1, big_endian) {
                Err(e) => Err(e),
                Ok((tables, p2)) => match spec_unsigned(s, p2, INT_LIMIT) {
                    Err(e) => Err(e),
                    Ok((n, p3)) => match spec_protos(s, p3, n as nat, big_endian, (room - 1) as nat) {
                        Err(e) => Err(e),
                        Ok((protos, p4)) => match spec_chunk_debug(s, p4) {
                            Err(e) => Err(e),
                            Ok((debug, p5)) => Ok(
                                (
                                    ChunkV {
                                        name: head.0,
                                        line_defined: head.1,
                                        last_line_defined: head.2,
                                        num_params: head.3,
                                        is_vararg: head.4 != 0,
                                        max_stack: head.5,
                                        instructions: tables.0,
                                        constants: tables.1,
                                        upvalue_infos: tables.2,
                                        prototypes: protos,
                                        line_info: debug.0,
                                        source_lines: debug.1,
                                        locals: debug.2,
                                        upvalue_names: debug.3,
                                    },
                                    p5,
                                ),
                            ),
                        },
                    },
                },
            },
        }
    }
}

/// `n` nested prototype records in a row.
pub open spec fn spec_protos(s: Seq<u8>, pos: usize, n: nat, big_endian: bool, room: nat) -> SpecRes<
    Seq<ChunkV>,
>
    decreases room, n,
{
    if n == 0 {
        Ok((Seq::empty(), pos))
    } else {
        match spec_protos(s, pos, (n - 1) as nat, big_endian, room) {
            Err(e) => Err(e),
            Ok((v, p)) => match spec_chunk(s, p, big_endian, room) {
                Err(e) => Err(e),
                Ok((c, q)) => Ok((v.push(c), q)),
            },
        }
    }
}

proof fn lemma_protos_err(s: Seq<u8>, pos: usize, i: nat, n: nat, big_endian: bool, room: nat)
    requires
        i <= n,
        spec_protos(s, pos, i, big_endian, room) is Err,
    ensures
        spec_protos(s, pos, n, big_endian, room) == spec_protos(s, pos, i, big_endian, room),
    decreases n - i,
{
    if i < n {
        lemma_protos_err(s, pos, i, (n - 1) as nat, big_endian, room);
    }
}

fn chunk_head(input: &[u8], pos: usize) -> (r: Result<((Vec<u8>, u64, u64, u8, u8, u8), usize), DecodeError>)
    ensures
        match r {
            Ok((h, q)) => spec_chunk_head(input@, pos) == Ok::<_, DecodeError>(((h.0@, h.1, h.2, h.3, h.4, h.5), q)),
            Err(e) => spec_chunk_head(input@, pos) == Err::<((Seq<u8>, u64, u64, u8, u8, u8), usize), DecodeError>(e),
        },
{
    let (name, p) = load_string(input, pos)?;
    let (line, p) = lua_int(input, p)?;
    let (last, p) = lua_int(input, p)?;
    let (params, p) = read_u8(input, p)?;
    let (vararg, p) = read_u8(input, p)?;
    let (stack, p) = read_u8(input, p)?;
    Ok(((name, line, last, params, vararg, stack), p))
}

fn chunk_tables(input: &[u8], pos: usize, big_endian: bool) -> (r: Result<((Vec<u32>, Vec<Constant>, Vec<UpVal>), usize), DecodeError>)
    ensures
        match r {
            Ok((t, q)) => spec_chunk_tables(input@, pos, big_endian) == Ok::<_, DecodeError>(((t.0@, constants_view(t.1@), t.2@), q)),
            Err(e) => spec_chunk_tables(input@, pos, big_endian) == Err::<((Seq<u32>, Seq<ConstantV>, Seq<UpVal>), usize), DecodeError>(e),
        },
{
    let (code, p) = load_instructions(input, pos, big_endian)?;
    let (consts, p) = load_constants(input, p)?;
    let (upvals, p) = load_upvalues(input, p)?;
    Ok(((code, consts, upvals), p))
}

fn chunk_debug(input: &[u8], pos: usize) -> (r: Result<((Vec<u8>, Vec<(u32, u32)>, Vec<Local>, Vec<Vec<u8>>), usize), DecodeError>)
    ensures
        match r {
            Ok((d, q)) => spec_chunk_debug(input@, pos) == Ok::<_, DecodeError>(((d.0@, d.1@, locals_view(d.2@), names_view(d.3@)), q)),
            Err(e) => spec_chunk_debug(input@, pos) == Err::<((Seq<u8>, Seq<(u32, u32)>, Seq<LocalV>, Seq<Seq<u8>>), usize), DecodeError>(e),
        },
{
    let (lines, p) = load_line_info(input, pos)?;
    let (ranges, p) = load_source_lines(input, p)?;
    let (locals, p) = load_locals(input, p)?;
    let (names, p) = load_upvalue_names(input, p)?;
    Ok(((lines, ranges, locals, names), p))
}

/// Decodes `n` nested prototype records in a row.
fn load_protos(input: &[u8], start: usize, n: u64, big_endian: bool, room: u64) -> (r: Result<(Vec<Chunk>, usize), DecodeError>)
    ensures
        match r {
            Ok((v, q)) => spec_protos(input@, start, n as nat, big_endian, room as nat) is Ok && {
                let (views, p) = spec_protos(input@, start, n as nat, big_endian, room as nat)->Ok_0;
                p == q && views.len() == v@.len() && forall|j: int| 0 <= j < views.len() ==> chunk_view(#[trigger] v@[j]) == views[j]
            },
            Err(e) => spec_protos(input@, start, n as nat, big_endian, room as nat) == Err::<(Seq<ChunkV>, usize), DecodeError>(e),
        },
    decreases room, 1nat,
{
    let ghost s = input@;
    let mut protos: Vec<Chunk> = Vec::new();
    let ghost mut views: Seq<ChunkV> = Seq::empty();
    let mut p: usize = start;
    let mut i: u64 = 0;
    while i < n
        invariant
            s == input@,
            i <= n,
            spec_protos(s, start, i as nat, big_endian, room as nat) == Ok::<(Seq<ChunkV>, usize), DecodeError>((views, p)),
            views.len() == protos@.len(),
            forall|j: int| 0 <= j < views.len() ==> chunk_view(#[trigger] protos@[j]) == views[j],
        decreases n - i,
    {
        match lua_chunk_nested(input, p, big_endian, room) {
            Err(e) => {
                proof {
                    assert(spec_protos(s, start, (i + 1) as nat, big_endian, room as nat)
                        == Err::<(Seq<ChunkV>, usize), DecodeError>(e));
                    lemma_protos_err(s, start, (i + 1) as nat, n as nat, big_endian, room as nat);
                }
                return Err(e);
            },
            Ok((c, q)) => {
                proof {
                    views = views.push(c@);
                }
                protos.push(c);
                p = q;
            },
        }
        i = i + 1;
    }
    Ok((protos, p))
}

/// Decodes one prototype record and, recursively, its nested prototypes.
pub fn lua_chunk_nested(input: &[u8], pos: usize, big_endian: bool, room: u64) -> (r: Result<(Chunk, usize), DecodeError>)
    ensures
        match r {
            Ok((c, q)) => spec_chunk(input@, pos, big_endian, room as nat) == Ok::<(ChunkV, usize), DecodeError>((c@, q)),
            Err(e) => spec_chunk(input@, pos, big_endian, room as nat) == Err::<(ChunkV, usize), DecodeError>(e),
        },
    decreases room, 0nat,
{
    if room == 0 {
        return Err(DecodeError::NestingTooDeep { offset: pos });
    }
    let (head, p1) = chunk_head(input, pos)?;
    let (tables, p2) = chunk_tables(input, p1, big_endian)?;
    let (n, start) = lua_int(input, p2)?;
    let (protos, p4) = load_protos(input, start, n, big_endian, room - 1)?;
    let ghost views = spec_protos(input@, start, n as nat, big_endian, (room - 1) as nat)->Ok_0.0;
    let (debug, p5) = chunk_debug(input, p4)?;
    let (name, line_defined, last_line_defined, num_params, vararg, max_stack) = head;
    let (instructions, constants, upvalue_infos) = tables;
    let (line_info, source_lines, locals, upvalue_names) = debug;
    let chunk = Chunk {
        name,
        line_defined,
        last_line_defined,
        num_params,
        is_vararg: vararg != 0,
        max_stack,
        instructions,
        constants,
        upvalue_infos,
        prototypes: protos,
        line_info,
        source_lines,
        locals,
        upvalue_names,
    };
    assert(chunk@.prototypes =~= views);
    Ok((chunk, p5))
}

/// Version byte of the images this module decodes.
pub const NATIVE_VERSION: u8 = 0x53;

/// Version recorded in the header of a decoded image.
pub const LUA54: u8 = 0x54;

/// Length of the header, signature included.
pub const HEADER_LEN: usize = 32;

/// The four signature bytes: escape, then "Lua".
pub open spec fn has_signature(s: Seq<u8>) -> bool {
    s.len() >= 4 && s[0] == 0x1b && s[1] == 0x4c && s[2] == 0x75 && s[3] == 0x61
}

/// Where a header that ends at `len` bytes runs out: the start of its first
/// incomplete field (format byte, six check bytes, three width bytes, an 8-byte
/// integer probe, an 8-byte float probe, the upvalue byte).
pub open spec fn header_eof_offset(len: nat) -> usize {
    if len < 6 {
        5
    } else if len < 12 {
        6
    } else if len < 13 {
        12
    } else if len < 14 {
        13
    } else if len < 15 {
        14
    } else if len < 23 {
        15
    } else if len < 31 {
        23
    } else {
        31
    }
}

/// The header: signature, version byte, format byte, six check bytes, instruction
/// width, integer width, number width, two probe values and an upvalue byte.
pub open spec fn spec_header(s: Seq<u8>) -> SpecRes<Header> {
    if !has_signature(s) {
        Err(DecodeError::MalformedHeader { offset: 0 })
    } else if s.len() < 5 {
        Err(DecodeError::UnexpectedEof { offset: 4 })
    } else if s[4] != NATIVE_VERSION {
        Err(DecodeError::UnsupportedVersion { version: s[4], offset: 4 })
    } else if s.len() < HEADER_LEN {
        Err(DecodeError::UnexpectedEof { offset: header_eof_offset(s.len()) })
    } else {
        Ok(
            (
                Header {
                    lua_version: LUA54,
                    format_version: s[5],
                    big_endian: false,
                    int_size: 4,
                    size_t_size: 8,
                    instruction_size: s[12],
                    number_size: s[14],
                    number_integral: false,
                    lj_flags: 0,
                },
                HEADER_LEN,
            ),
        )
    }
}

/// Decodes the header at the start of `input`.
pub fn lua_header(input: &[u8]) -> (r: Result<(Header, usize), DecodeError>)
    ensures
        r == spec_header(input@),
{
    let n = input.len();
    if !(n >= 4 && input[0] == 0x1b && input[1] == 0x4c && input[2] == 0x75 && input[3] == 0x61) {
        return Err(DecodeError::MalformedHeader { offset: 0 });
    }
    if n < 5 {
        return Err(DecodeError::UnexpectedEof { offset: 4 });
    }
    if input[4] != NATIVE_VERSION {
        return Err(DecodeError::UnsupportedVersion { version: input[4], offset: 4 });
    }
    if n < HEADER_LEN {
        let offset: usize = if n < 6 {
            5
        } else if n < 12 {
            6
        } else if n < 13 {
            12
        } else if n < 14 {
            13
        } else if n < 15 {
            14
        } else if n < 23 {
            15
        } else if n < 31 {
            23
        } else {
            31
        };
        return Err(DecodeError::UnexpectedEof { offset });
    }
    let header = Header {
        lua_version: LUA54,
        format_version: input[5],
        big_endian: false,
        int_size: 4,
        size_t_size: 8,
        instruction_size: input[12],
        number_size: input[14],
        number_integral: false,
        lj_flags: 0,
    };
    Ok((header, HEADER_LEN))
}

/// The main prototype that follows a header ending at `pos`.
pub open spec fn spec_main_chunk(s: Seq<u8>, pos: usize, big_endian: bool) -> SpecRes<ChunkV> {
    spec_chunk(s, pos, big_endian, MAX_NESTING as nat)
}

/// Decodes the main prototype at `pos`, with the format parameters of `header`.
pub fn lua_chunk(input: &[u8], pos: usize, header: &Header) -> (r: Result<(Chunk, usize), DecodeError>)
    ensures
        match r {
            Ok((c, q)) => spec_main_chunk(input@, pos, header.big_endian) == Ok::<(ChunkV, usize), DecodeError>((c@, q)),
            Err(e) => spec_main_chunk(input@, pos, header.big_endian) == Err::<(ChunkV, usize), DecodeError>(e),
        },
{
    lua_chunk_nested(input, pos, header.big_endian, MAX_NESTING)
}

/// Up to the first gap, only the substitution table acts: the gap adjustment
/// leaves every opcode at or below it unchanged.
pub proof fn lemma_remap_below_first_gap(op: u8)
    requires
        substituted(op) <= 0x0b,
    ensures
        spec_remap(op) == substituted(op),
{
    lemma_gaps_below_bound(substituted(op), 20);
}

/// An opcode outside the substitution table and below the first gap is already
/// canonical: renumbering it gives it back, and renumbering the result again
/// changes nothing.
pub proof fn lemma_remap_idempotent(op: u8)
    requires
        0x0a < op <= 0x0b,
    ensures
        spec_remap(op) == op,
        spec_remap(spec_remap(op)) == spec_remap(op),
{
    lemma_remap_below_first_gap(op);
}

/// The tag that stands for a constant's kind; strings take the short-string tag.
pub open spec fn constant_tag(c: ConstantV) -> u8 {
    match c {
        ConstantV::Null => TAG_NIL,
        ConstantV::Bool(b) => if b {
            TAG_TRUE
        } else {
            TAG_FALSE
        },
        ConstantV::Integer(_) => TAG_INTEGER,
        ConstantV::Float(_) => TAG_FLOAT,
        ConstantV::Str(_) => TAG_SHORT_STRING,
    }
}

/// Re-tagging a decoded constant gives back the tag it was decoded from; the one
/// exception is the long-string tag, which shares its kind with the short-string tag.
pub proof fn lemma_constant_retag(s: Seq<u8>, pos: usize)
    requires
        spec_constant(s, pos) is Ok,
    ensures
        pos < s.len(),
        s[pos as int] != TAG_LONG_STRING ==> constant_tag(spec_constant(s, pos)->Ok_0.0) == s[pos as int],
        s[pos as int] == TAG_LONG_STRING ==> constant_tag(spec_constant(s, pos)->Ok_0.0) == TAG_SHORT_STRING,
{
}

/// Every tag that the decoder knows maps to a distinct kind: no two different
/// re-tagged kinds share a tag.
pub proof fn lemma_constant_tag_injective(a: ConstantV, b: ConstantV)
    requires
        constant_tag(a) == constant_tag(b),
    ensures
        a is Null <==> b is Null,
        a is Integer <==> b is Integer,
        a is Float <==> b is Float,
        a is Str <==> b is Str,
        a is Bool ==> b is Bool && a->Bool_0 == b->Bool_0,
{
}

/// A prototype record that decodes holds exactly as many instructions, constants,
/// upvalues and nested prototypes as the count fields in front of those tables say.
pub proof fn lemma_chunk_counts(s: Seq<u8>, pos: usize, big_endian: bool, room: nat)
    requires
        spec_chunk(s, pos, big_endian, room) is Ok,
    ensures
        ({
            let c = spec_chunk(s, pos, big_endian, room)->Ok_0.0;
            let p1 = spec_chunk_head(s, pos)->Ok_0.1;
            let p2 = counted(s, p1, instruction_item(big_endian))->Ok_0.1;
            let p3 = counted(s, p2, constant_item())->Ok_0.1;
            let p4 = counted(s, p3, upvalue_item())->Ok_0.1;
            &&& c.instructions.len() == spec_unsigned(s, p1, INT_LIMIT)->Ok_0.0
            &&& c.constants.len() == spec_unsigned(s, p2, INT_LIMIT)->Ok_0.0
            &&& c.upvalue_infos.len() == spec_unsigned(s, p3, INT_LIMIT)->Ok_0.0
            &&& c.prototypes.len() == spec_unsigned(s, p4, INT_LIMIT)->Ok_0.0
        }),
{
    let p1 = spec_chunk_head(s, pos)->Ok_0.1;
    let p2 = counted(s, p1, instruction_item(big_endian))->Ok_0.1;
    let p3 = counted(s, p2, constant_item())->Ok_0.1;
    let p4 = counted(s, p3, upvalue_item())->Ok_0.1;
    lemma_counted_len(s, p1, instruction_item(big_endian));
    lemma_counted_len(s, p2, constant_item());
    lemma_counted_len(s, p3, upvalue_item());
    let (n, p5) = spec_unsigned(s, p4, INT_LIMIT)->Ok_0;
    lemma_protos_len(s, p5, n as nat, big_endian, (room - 1) as nat);
}

proof fn lemma_protos_len(s: Seq<u8>, pos: usize, n: nat, big_endian: bool, room: nat)
    requires
        spec_protos(s, pos, n, big_endian, room) is Ok,
    ensures
        spec_protos(s, pos, n, big_endian, room)->Ok_0.0.len() == n,
    decreases n,
{
    if n > 0 {
        lemma_protos_len(s, pos, (n - 1) as nat, big_endian, room);
    }
}

} // verus!

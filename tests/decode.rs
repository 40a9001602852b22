use luac_decode::lua54::{
    load_upvalue, lua_chunk_nested, lua_constant, lua_header, lua_instruction, lua_local,
    remap_opcode, take_lv_false, take_lv_nil, take_lv_str, take_lv_true,
};
use luac_decode::lua_bytecode;
use luac_decode::prim::{load_size, load_string, load_unsigned, lua_int, read_uint};
use luac_decode::types::{Constant, DecodeError, Decoded};

fn header_bytes() -> Vec<u8> {
    let mut v = vec![0x1b, b'L', b'u', b'a', 0x53, 0x00];
    v.extend_from_slice(&[0x19, 0x93, 0x0d, 0x0a, 0x1a, 0x0a]);
    v.extend_from_slice(&[4, 8, 8]);
    v.extend_from_slice(&0x5678i64.to_le_bytes());
    v.extend_from_slice(&370.5f64.to_le_bytes());
    v.push(1);
    v
}

/// An empty prototype record: no name, lines 0 and 0, and all tables empty.
fn empty_chunk(params: u8, vararg: u8, stack: u8) -> Vec<u8> {
    let mut v = vec![0x80, 0x80, 0x80, params, vararg, stack];
    v.extend_from_slice(&[0x80, 0x80, 0x80, 0x80]);
    v.extend_from_slice(&[0x80, 0x80, 0x80, 0x80]);
    v
}

#[test]
fn minimal_image_decodes_to_empty_chunk() {
    let mut input = header_bytes();
    input.extend(empty_chunk(3, 1, 7));
    match lua_bytecode(&input) {
        Ok(Decoded::Lua(img)) => {
            assert_eq!(img.header.lua_version, 0x54);
            assert_eq!(img.header.instruction_size, 4);
            assert_eq!(img.header.number_size, 8);
            let c = &img.main_chunk;
            assert_eq!(c.num_params, 3);
            assert!(c.is_vararg);
            assert_eq!(c.max_stack, 7);
            assert!(c.name.is_empty());
            assert!(c.instructions.is_empty());
            assert!(c.constants.is_empty());
            assert!(c.upvalue_infos.is_empty());
            assert!(c.prototypes.is_empty());
            assert!(c.line_info.is_empty());
            assert!(c.source_lines.is_empty());
            assert!(c.locals.is_empty());
            assert!(c.upvalue_names.is_empty());
        }
        other => panic!("unexpected result {:?}", other),
    }
}

#[test]
fn varint_single_terminated_byte() {
    assert_eq!(load_unsigned(&[0x82], 0, u64::MAX), Ok((2, 1)));
}

#[test]
fn varint_unterminated_byte_runs_out() {
    assert_eq!(
        load_unsigned(&[0x02], 0, u64::MAX),
        Err(DecodeError::UnexpectedEof { offset: 1 })
    );
}

#[test]
fn varint_two_bytes() {
    assert_eq!(load_unsigned(&[0x01, 0x82], 0, u64::MAX), Ok((130, 2)));
    assert_eq!(load_size(&[0x01, 0x82], 0), Ok((130, 2)));
    assert_eq!(lua_int(&[0x01, 0x82], 0), Ok((130, 2)));
}

#[test]
fn varint_overflow_is_reported() {
    assert_eq!(
        lua_int(&[0x7f, 0x7f, 0x7f, 0x7f, 0x7f, 0x80], 0),
        Err(DecodeError::IntegerOverflow { offset: 5 })
    );
    assert_eq!(load_unsigned(&[0x80], 0, 0), Err(DecodeError::IntegerOverflow { offset: 1 }));
}

#[test]
fn string_sizes_zero_and_one_are_empty() {
    assert_eq!(load_string(&[0x80, 0x41], 0), Ok((vec![], 1)));
    assert_eq!(load_string(&[0x81, 0x41], 0), Ok((vec![], 1)));
    assert_eq!(load_string(&[0x83, b'h', b'i', b'!'], 0), Ok((b"hi".to_vec(), 3)));
    assert_eq!(
        load_string(&[0x84, b'h', b'i'], 0),
        Err(DecodeError::UnexpectedEof { offset: 1 })
    );
}

#[test]
fn unknown_version_is_reported() {
    let mut input = header_bytes();
    input[4] = 0x51;
    assert_eq!(
        lua_header(&input),
        Err(DecodeError::UnsupportedVersion { version: 0x51, offset: 4 })
    );
    assert!(matches!(
        lua_bytecode(&input),
        Err(DecodeError::UnsupportedVersion { version: 0x51, offset: 4 })
    ));
}

#[test]
fn missing_signature_is_malformed() {
    assert_eq!(lua_header(b"\x1bLuX\x53"), Err(DecodeError::MalformedHeader { offset: 0 }));
    assert!(matches!(lua_bytecode(b"ab"), Err(DecodeError::MalformedHeader { offset: 0 })));
}

#[test]
fn short_header_runs_out() {
    let input = header_bytes();
    assert_eq!(lua_header(&input[..20]), Err(DecodeError::UnexpectedEof { offset: 15 }));
    assert_eq!(lua_header(&input[..4]), Err(DecodeError::UnexpectedEof { offset: 4 }));
    assert_eq!(lua_header(&input), Ok((lua_header(&input).unwrap().0, 32)));
}

#[test]
fn luajit_signature_is_recognised() {
    assert!(matches!(lua_bytecode(b"\x1bLJ\x02\x00"), Ok(Decoded::LuaJit)));
}

#[test]
fn remap_table_values() {
    assert_eq!(remap_opcode(0x0a), 0);
    assert_eq!(remap_opcode(0), 1);
    assert_eq!(remap_opcode(9), 10);
    assert_eq!(remap_opcode(0x0b), 0x0b);
    assert_eq!(remap_opcode(0x0c), 0x0b);
    assert_eq!(remap_opcode(0x11), 0x0f);
    assert_eq!(remap_opcode(0x7f), 0x7f - 20);
}

#[test]
fn remap_is_identity_just_past_substitutions() {
    let once = remap_opcode(0x0b);
    assert_eq!(once, 0x0b);
    assert_eq!(remap_opcode(once), once);
}

#[test]
fn instruction_keeps_operands() {
    assert_eq!(lua_instruction(&[0x8a, 0x12, 0x34, 0x56], 0, false), Ok((0x5634_1280, 4)));
    assert_eq!(lua_instruction(&[0x56, 0x34, 0x12, 0x8c], 0, true), Ok((0x5634_128b, 4)));
    assert_eq!(
        lua_instruction(&[0x8a, 0x12], 0, false),
        Err(DecodeError::UnexpectedEof { offset: 0 })
    );
}

#[test]
fn fixed_width_reads() {
    assert_eq!(read_uint(&[1, 2, 3, 4], 0, 4, false), Ok((0x0403_0201, 4)));
    assert_eq!(read_uint(&[1, 2, 3, 4], 0, 4, true), Ok((0x0102_0304, 4)));
    assert_eq!(read_uint(&[1, 2, 3, 4], 2, 2, true), Ok((0x0304, 4)));
    assert_eq!(read_uint(&[9], 0, 1, false), Ok((9, 1)));
    assert_eq!(
        read_uint(&[1, 2, 3, 4], 0, 3, false),
        Err(DecodeError::UnsupportedWidth { width: 3, offset: 0 })
    );
    assert_eq!(read_uint(&[1, 2, 3], 0, 8, false), Err(DecodeError::UnexpectedEof { offset: 0 }));
}

#[test]
fn constants_by_tag() {
    assert!(matches!(take_lv_nil(&[0x00], 0), Ok((Constant::Null, 1))));
    assert!(matches!(take_lv_false(&[0x01], 0), Ok((Constant::Bool(false), 1))));
    assert!(matches!(take_lv_true(&[0x11], 0), Ok((Constant::Bool(true), 1))));
    assert!(matches!(
        take_lv_nil(&[0x01], 0),
        Err(DecodeError::UnknownConstantTag { tag: 0x01, offset: 0 })
    ));
    match take_lv_str(&[0x14, 0x83, b'o', b'k'], 0) {
        Ok((Constant::Str(s), 4)) => assert_eq!(s, b"ok".to_vec()),
        other => panic!("unexpected {:?}", other),
    }
    let mut f = vec![0x13];
    f.extend_from_slice(&1.5f64.to_le_bytes());
    match lua_constant(&f, 0) {
        Ok((Constant::Float(bits), 9)) => assert_eq!(f64::from_bits(bits), 1.5),
        other => panic!("unexpected {:?}", other),
    }
    let mut i = vec![0x03];
    i.extend_from_slice(&(-7i64).to_le_bytes());
    assert!(matches!(lua_constant(&i, 0), Ok((Constant::Integer(-7), 9))));
    assert!(matches!(
        lua_constant(&[0x05], 0),
        Err(DecodeError::UnknownConstantTag { tag: 0x05, offset: 0 })
    ));
    assert!(matches!(lua_constant(&[0x13, 1, 2], 0), Err(DecodeError::UnexpectedEof { offset: 1 })));
}

#[test]
fn upvalue_and_local_records() {
    let (u, p) = load_upvalue(&[1, 4, 2], 0).unwrap();
    assert!(u.on_stack);
    assert_eq!((u.id, u.kind, p), (4, 2, 3));
    assert_eq!(load_upvalue(&[1, 4], 0).err(), Some(DecodeError::UnexpectedEof { offset: 2 }));
    let (l, p) = lua_local(&[0x82, b'x', 0x81, 0x85], 0).unwrap();
    assert_eq!(l.name, b"x".to_vec());
    assert_eq!((l.start_pc, l.end_pc, p), (1, 5, 4));
}

#[test]
fn nested_prototypes_and_tables() {
    let mut body = vec![0x82, b'f', 0x81, 0x89, 0, 0, 2];
    body.push(0x81);
    body.extend_from_slice(&[0x8a, 0x12, 0x34, 0x56]);
    body.extend_from_slice(&[0x82, 0x00, 0x04, 0x82, b'a']);
    body.extend_from_slice(&[0x81, 1, 0, 0]);
    body.push(0x81);
    body.extend(empty_chunk(1, 0, 2));
    body.extend_from_slice(&[0x81, 7]);
    body.extend_from_slice(&[0x81, 0x81, 0x82]);
    body.extend_from_slice(&[0x81, 0x82, b'v', 0x80, 0x81]);
    body.extend_from_slice(&[0x81, 0x83, b'_', b'E']);
    let (c, p) = lua_chunk_nested(&body, 0, false, 200).unwrap();
    assert_eq!(p, body.len());
    assert_eq!(c.name, b"f".to_vec());
    assert_eq!((c.line_defined, c.last_line_defined), (1, 9));
    assert_eq!(c.instructions, vec![0x5634_1280]);
    assert_eq!(c.constants.len(), 2);
    assert_eq!(c.upvalue_infos.len(), 1);
    assert_eq!(c.prototypes.len(), 1);
    assert_eq!(c.prototypes[0].num_params, 1);
    assert_eq!(c.line_info, vec![7]);
    assert_eq!(c.source_lines, vec![(1, 2)]);
    assert_eq!(c.locals[0].name, b"v".to_vec());
    assert_eq!(c.upvalue_names, vec![b"_E".to_vec()]);
    for cut in 0..body.len() {
        assert!(matches!(
            lua_chunk_nested(&body[..cut], 0, false, 200),
            Err(DecodeError::UnexpectedEof { .. })
        ));
    }
}

#[test]
fn nesting_limit_is_enforced() {
    let body = empty_chunk(0, 0, 0);
    assert!(matches!(
        lua_chunk_nested(&body, 0, false, 0),
        Err(DecodeError::NestingTooDeep { offset: 0 })
    ));
    let mut nested = vec![0x80, 0x80, 0x80, 0, 0, 0, 0x80, 0x80, 0x80, 0x81];
    nested.extend(empty_chunk(0, 0, 0));
    nested.extend_from_slice(&[0x80, 0x80, 0x80, 0x80]);
    assert!(matches!(
        lua_chunk_nested(&nested, 0, false, 1),
        Err(DecodeError::NestingTooDeep { offset: 10 })
    ));
    assert!(lua_chunk_nested(&nested, 0, false, 2).is_ok());
}

#[test]
fn truncated_image_runs_out() {
    let mut input = header_bytes();
    input.extend(empty_chunk(0, 0, 0));
    for cut in 4..input.len() {
        assert!(matches!(lua_bytecode(&input[..cut]), Err(DecodeError::UnexpectedEof { .. })));
    }
}

/// Big-endian seven-bit groups with the top bit set on the last byte.
fn encode_varint(mut v: u64) -> Vec<u8> {
    let mut groups = vec![(v & 0x7f) as u8 | 0x80];
    v >>= 7;
    while v > 0 {
        groups.push((v & 0x7f) as u8);
        v >>= 7;
    }
    groups.reverse();
    groups
}

#[test]
fn varint_reference_encoding_round_trips() {
    assert_eq!(encode_varint(300), vec![0x02, 0xac]);
    for v in [0u64, 1, 127, 128, 300, 16_383, 16_384, 0x7fff_ff00, 1 << 40] {
        let bytes = encode_varint(v);
        let (got, end) = load_size(&bytes, 0).unwrap();
        assert_eq!((got, end), (v, bytes.len()));
        assert!(bytes[..bytes.len() - 1].iter().all(|b| b & 0x80 == 0));
    }
    let (got, end) = lua_int(&encode_varint(0x7fff_ff00), 0).unwrap();
    assert_eq!((got, end), (0x7fff_ff00, 5));
}

#[test]
fn long_and_short_string_tags_share_a_kind() {
    let short = lua_constant(&[0x04, 0x82, b'a'], 0);
    let long = lua_constant(&[0x14, 0x82, b'a'], 0);
    match (short, long) {
        (Ok((Constant::Str(a), 3)), Ok((Constant::Str(b), 3))) => assert_eq!(a, b),
        other => panic!("unexpected {:?}", other),
    }
}

#[test]
fn table_counts_match_encoded_counts() {
    let mut body = vec![0x80, 0x80, 0x80, 0, 0, 0];
    body.push(0x83);
    body.extend_from_slice(&[1, 0, 0, 0, 2, 0, 0, 0, 3, 0, 0, 0]);
    body.extend_from_slice(&[0x82, 0x00, 0x11]);
    body.extend_from_slice(&[0x80, 0x80, 0x80, 0x80, 0x80, 0x80]);
    let (c, p) = lua_chunk_nested(&body, 0, false, 200).unwrap();
    assert_eq!(p, body.len());
    assert_eq!(c.instructions, vec![2, 3, 4]);
    assert_eq!(c.constants.len(), 2);
    assert!(c.upvalue_infos.is_empty());
    assert!(c.prototypes.is_empty());
}

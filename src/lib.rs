//! Decoding of compiled Lua bytecode images into an owned tree of prototypes.
use vstd::prelude::*;

pub mod types;
pub mod prim;
pub mod table;
pub mod lua54;
pub mod prefix;

use crate::lua54::{lua_chunk, lua_header, spec_header, spec_main_chunk, HEADER_LEN, MAX_NESTING};
use crate::prefix::{is_eof, lemma_chunk_prefix};
use crate::types::{BytecodeImage, ChunkV, Decoded, DecodeError, Header, SpecRes};

verus! {

/// The three signature bytes of the LuaJIT family: escape, then "LJ".
pub open spec fn has_luajit_signature(s: Seq<u8>) -> bool {
    s.len() >= 3 && s[0] == 0x1b && s[1] == 0x4c && s[2] == 0x4a
}

/// A whole image of the 5.4-layout family: its header, then its main prototype.
pub open spec fn spec_image(s: Seq<u8>) -> SpecRes<(Header, ChunkV)> {
    match spec_header(s) {
        Err(e) => Err(e),
        Ok((h, p)) => match spec_main_chunk(s, p, h.big_endian) {
            Err(e) => Err(e),
            Ok((c, q)) => Ok(((h, c), q)),
        },
    }
}

/// Decodes a whole image: the header picks the layout, then the main prototype
/// and everything nested in it are read. Bytes after the main prototype are ignored.
pub fn lua_bytecode(input: &[u8]) -> (r: Result<Decoded, DecodeError>)
    ensures
        has_luajit_signature(input@) ==> r is Ok && r->Ok_0 is LuaJit,
        !has_luajit_signature(input@) ==> match spec_image(input@) {
            Err(e) => r == Err::<Decoded, DecodeError>(e),
            Ok(((h, c), _)) => r is Ok && r->Ok_0 is Lua && r->Ok_0->Lua_0.header == h
                && r->Ok_0->Lua_0.main_chunk@ == c,
        },
{
    if input.len() >= 3 && input[0] == 0x1b && input[1] == 0x4c && input[2] == 0x4a {
        return Ok(Decoded::LuaJit);
    }
    let (header, p) = lua_header(input)?;
    let (main_chunk, _) = lua_chunk(input, p, &header)?;
    Ok(Decoded::Lua(BytecodeImage { header, main_chunk }))
}

/// Cutting a decodable image short anywhere after its four signature bytes and
/// before the end of its main prototype makes decoding run out of input: it never
/// succeeds with part of the tree.
pub proof fn lemma_truncated_image(s: Seq<u8>, k: nat)
    requires
        s.len() <= usize::MAX,
        k <= s.len(),
        spec_image(s) is Ok,
        4 <= k < spec_image(s)->Ok_0.1,
    ensures
        !has_luajit_signature(s.take(k as int)),
        is_eof(spec_image(s.take(k as int))),
{
    let t = s.take(k as int);
    let (h, p) = spec_header(s)->Ok_0;
    assert(t[0] == s[0] && t[1] == s[1] && t[2] == s[2] && t[3] == s[3]);
    if k >= HEADER_LEN {
        assert(t[4] == s[4] && t[5] == s[5] && t[12] == s[12] && t[14] == s[14]);
        assert(spec_header(t) == spec_header(s));
        lemma_chunk_prefix(s, p, h.big_endian, MAX_NESTING as nat, k);
    } else if k > 4 {
        assert(t[4] == s[4]);
    }
}

} // verus!

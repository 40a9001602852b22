//! The values a decode produces, and their mathematical models.
use vstd::prelude::*;

verus! {

/// Result of a decoder over a byte sequence: the value and the position after it.
pub type SpecRes<T> = Result<(T, usize), DecodeError>;

/// The model of an executable decode result.
pub open spec fn view_res<T: View>(r: Result<(T, usize), DecodeError>) -> SpecRes<T::V> {
    match r {
        Ok((v, p)) => Ok((v@, p)),
        Err(e) => Err(e),
    }
}

/// Why a decode stopped, with the byte offset at which it was detected.
#[derive(Clone, Copy, Debug, PartialEq, Eq, Structural)]
pub enum DecodeError {
    /// The signature bytes are absent or unrecognized.
    MalformedHeader { offset: usize },
    /// The signature matched but the version byte names no known layout.
    UnsupportedVersion { version: u8, offset: usize },
    /// Fewer bytes remain than a field requires.
    UnexpectedEof { offset: usize },
    /// A variable-length integer exceeded its bound.
    IntegerOverflow { offset: usize },
    /// A constant's tag byte is outside the known set.
    UnknownConstantTag { tag: u8, offset: usize },
    /// A fixed-width read was asked for a width other than 1, 2, 4 or 8.
    UnsupportedWidth { width: usize, offset: usize },
    /// Prototypes are nested deeper than the decoder accepts.
    NestingTooDeep { offset: usize },
}

/// The format parameters read from an image's header.
#[derive(Clone, Copy, Debug, PartialEq, Eq, Structural)]
pub struct Header {
    pub lua_version: u8,
    pub format_version: u8,
    pub big_endian: bool,
    pub int_size: u8,
    pub size_t_size: u8,
    pub instruction_size: u8,
    pub number_size: u8,
    pub number_integral: bool,
    pub lj_flags: u8,
}

/// One upvalue descriptor of a prototype.
#[derive(Clone, Copy, Debug, PartialEq, Eq, Structural)]
pub struct UpVal {
    pub on_stack: bool,
    pub id: u8,
    pub kind: u8,
}

/// A constant-pool entry. A float is kept as its IEEE-754 bit pattern.
#[derive(Clone, Debug)]
pub enum Constant {
    Null,
    Bool(bool),
    Integer(i64),
    Float(u64),
    Str(Vec<u8>),
}

/// Model of a [`Constant`].
pub enum ConstantV {
    Null,
    Bool(bool),
    Integer(i64),
    Float(u64),
    Str(Seq<u8>),
}

impl View for Constant {
    type V = ConstantV;

    open spec fn view(&self) -> ConstantV {
        match self {
            Constant::Null => ConstantV::Null,
            Constant::Bool(b) => ConstantV::Bool(*b),
            Constant::Integer(i) => ConstantV::Integer(*i),
            Constant::Float(f) => ConstantV::Float(*f),
            Constant::Str(v) => ConstantV::Str(v@),
        }
    }
}

/// A local variable's debug record: its name and the instruction range where it lives.
#[derive(Clone, Debug)]
pub struct Local {
    pub name: Vec<u8>,
    pub start_pc: u64,
    pub end_pc: u64,
}

/// Model of a [`Local`].
pub struct LocalV {
    pub name: Seq<u8>,
    pub start_pc: u64,
    pub end_pc: u64,
}

impl View for Local {
    type V = LocalV;

    open spec fn view(&self) -> LocalV {
        LocalV { name: self.name@, start_pc: self.start_pc, end_pc: self.end_pc }
    }
}

/// One function prototype, owning its nested prototypes.
#[derive(Debug)]
pub struct Chunk {
    pub name: Vec<u8>,
    pub line_defined: u64,
    pub last_line_defined: u64,
    pub num_params: u8,
    pub is_vararg: bool,
    pub max_stack: u8,
    pub instructions: Vec<u32>,
    pub constants: Vec<Constant>,
    pub upvalue_infos: Vec<UpVal>,
    pub prototypes: Vec<Chunk>,
    pub line_info: Vec<u8>,
    pub source_lines: Vec<(u32, u32)>,
    pub locals: Vec<Local>,
    pub upvalue_names: Vec<Vec<u8>>,
}

/// Model of a [`Chunk`].
pub struct ChunkV {
    pub name: Seq<u8>,
    pub line_defined: u64,
    pub last_line_defined: u64,
    pub num_params: u8,
    pub is_vararg: bool,
    pub max_stack: u8,
    pub instructions: Seq<u32>,
    pub constants: Seq<ConstantV>,
    pub upvalue_infos: Seq<UpVal>,
    pub prototypes: Seq<ChunkV>,
    pub line_info: Seq<u8>,
    pub source_lines: Seq<(u32, u32)>,
    pub locals: Seq<LocalV>,
    pub upvalue_names: Seq<Seq<u8>>,
}

pub open spec fn constants_view(v: Seq<Constant>) -> Seq<ConstantV> {
    v.map_values(|k: Constant| k@)
}

pub open spec fn locals_view(v: Seq<Local>) -> Seq<LocalV> {
    v.map_values(|l: Local| l@)
}

pub open spec fn names_view(v: Seq<Vec<u8>>) -> Seq<Seq<u8>> {
    v.map_values(|n: Vec<u8>| n@)
}

pub open spec fn chunk_view(c: Chunk) -> ChunkV
    decreases c,
{
    ChunkV {
        name: c.name@,
        line_defined: c.line_defined,
        last_line_defined: c.last_line_defined,
        num_params: c.num_params,
        is_vararg: c.is_vararg,
        max_stack: c.max_stack,
        instructions: c.instructions@,
        constants: constants_view(c.constants@),
        upvalue_infos: c.upvalue_infos@,
        prototypes: Seq::new(
            c.prototypes@.len(),
            |i: int|
                {
                    if 0 <= i < c.prototypes@.len() {
                        chunk_view(c.prototypes@[i])
                    } else {
                        arbitrary()
                    }
                },
        ),
        line_info: c.line_info@,
        source_lines: c.source_lines@,
        locals: locals_view(c.locals@),
        upvalue_names: names_view(c.upvalue_names@),
    }
}

impl View for Chunk {
    type V = ChunkV;

    open spec fn view(&self) -> ChunkV {
        chunk_view(*self)
    }
}

/// A decoded image of the 5.4-layout family: its format parameters and main prototype.
#[derive(Debug)]
pub struct BytecodeImage {
    pub header: Header,
    pub main_chunk: Chunk,
}

/// What the top-level decoder recognised in its input.
#[derive(Debug)]
pub enum Decoded {
    /// An image that this library decoded in full.
    Lua(BytecodeImage),
    /// An image of the LuaJIT family, whose signature was found; its records are
    /// left to that family's decoder.
    LuaJit,
}

} // verus!

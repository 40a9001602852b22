//! Primitive decoders: single bytes, fixed-width integers, variable-length integers
//! and length-prefixed strings. Each works on a byte slice and a position, and returns
//! the value together with the position just after it.
use vstd::prelude::*;
use vstd::slice::{slice_subrange, slice_to_vec};
use crate::types::{view_res, DecodeError, SpecRes};

verus! {

/// Bound handed to the variable-length decoder for size fields.
pub const SIZE_LIMIT: u64 = 0xffff_ffff_ffff_ffff;

/// Bound handed to the variable-length decoder for integer and count fields.
pub const INT_LIMIT: u64 = 0x7fff_ffff;

/// Reads one byte at `pos`.
pub open spec fn spec_byte(s: Seq<u8>, pos: usize) -> SpecRes<u8> {
    if pos < s.len() {
        Ok((s[pos as int], (pos + 1) as usize))
    } else {
        Err(DecodeError::UnexpectedEof { offset: pos })
    }
}

pub fn read_u8(input: &[u8], pos: usize) -> (r: Result<(u8, usize), DecodeError>)
    ensures
        r == spec_byte(input@, pos),
{
    if pos < input.len() {
        Ok((input[pos], pos + 1))
    } else {
        Err(DecodeError::UnexpectedEof { offset: pos })
    }
}

/// The number whose big-endian base-256 digits are `b`.
pub open spec fn be_value(b: Seq<u8>) -> nat
    decreases b.len(),
{
    if b.len() == 0 {
        0
    } else {
        be_value(b.drop_last()) * 256 + b.last() as nat
    }
}

/// The number whose little-endian base-256 digits are `b`.
pub open spec fn le_value(b: Seq<u8>) -> nat
    decreases b.len(),
{
    if b.len() == 0 {
        0
    } else {
        b[0] as nat + 256 * le_value(b.drop_first())
    }
}

pub open spec fn pow256(n: nat) -> nat
    decreases n,
{
    if n == 0 {
        1
    } else {
        256 * pow256((n - 1) as nat)
    }
}

pub proof fn lemma_be_bound(b: Seq<u8>)
    ensures
        be_value(b) < pow256(b.len()),
    decreases b.len(),
{
    if b.len() > 0 {
        lemma_be_bound(b.drop_last());
        let p = pow256((b.len() - 1) as nat);
        let v = be_value(b.drop_last());
        assert(v * 256 + 255 < p * 256) by (nonlinear_arith)
            requires
                v < p,
        ;
    }
}

pub proof fn lemma_le_bound(b: Seq<u8>)
    ensures
        le_value(b) < pow256(b.len()),
    decreases b.len(),
{
    if b.len() > 0 {
        lemma_le_bound(b.drop_first());
        let p = pow256((b.len() - 1) as nat);
        let v = le_value(b.drop_first());
        assert(255 + 256 * v < 256 * p) by (nonlinear_arith)
            requires
                v < p,
        ;
    }
}

/// Value of a fixed-width unsigned field in the given byte order.
pub open spec fn uint_value(b: Seq<u8>, big_endian: bool) -> nat {
    if big_endian {
        be_value(b)
    } else {
        le_value(b)
    }
}

pub open spec fn supported_width(width: usize) -> bool {
    width == 1 || width == 2 || width == 4 || width == 8
}

/// Reads an unsigned field of `width` bytes in the given byte order.
pub open spec fn spec_uint(s: Seq<u8>, pos: usize, width: usize, big_endian: bool) -> SpecRes<
    u64,
> {
    if !supported_width(width) {
        Err(DecodeError::UnsupportedWidth { width, offset: pos })
    } else if pos + width > s.len() {
        Err(DecodeError::UnexpectedEof { offset: pos })
    } else {
        Ok(
            (
                uint_value(s.subrange(pos as int, pos + width), big_endian) as u64,
                (pos + width) as usize,
            ),
        )
    }
}

pub fn read_uint(input: &[u8], pos: usize, width: usize, big_endian: bool) -> (r: Result<
    (u64, usize),
    DecodeError,
>)
    ensures
        r == spec_uint(input@, pos, width, big_endian),
        r is Ok ==> r->Ok_0.0 as nat == uint_value(
            input@.subrange(pos as int, pos + width),
            big_endian,
        ),
{
    if !(width == 1 || width == 2 || width == 4 || width == 8) {
        return Err(DecodeError::UnsupportedWidth { width, offset: pos });
    }
    if width > input.len() || pos > input.len() - width {
        return Err(DecodeError::UnexpectedEof { offset: pos });
    }
    let ghost s = input@;
    proof {
        reveal_with_fuel(pow256, 9);
        assert(pow256(8) == 0x1_0000_0000_0000_0000);
    }
    let mut acc: u64 = 0;
    if big_endian {
        let mut i: usize = 0;
        while i < width
            invariant
                i <= width,
                supported_width(width),
                pos + width <= s.len(),
                pos + width <= input.len(),
                s == input@,
                acc as nat == be_value(s.subrange(pos as int, pos + i)),
                pow256(8) == 0x1_0000_0000_0000_0000,
            decreases width - i,
        {
            proof {
                let b = s.subrange(pos as int, pos + i + 1);
                assert(b.drop_last() =~= s.subrange(pos as int, pos + i));
                lemma_be_bound(b);
                lemma_pow_mono(b.len(), 8);
            }
            acc = acc * 256 + input[pos + i] as u64;
            i = i + 1;
        }
    } else {
        let mut i: usize = width;
        while i > 0
            invariant
                i <= width,
                supported_width(width),
                pos + width <= s.len(),
                pos + width <= input.len(),
                s == input@,
                acc as nat == le_value(s.subrange(pos + i, pos + width)),
                pow256(8) == 0x1_0000_0000_0000_0000,
            decreases i,
        {
            proof {
                let b = s.subrange(pos + i - 1, pos + width);
                assert(b.drop_first() =~= s.subrange(pos + i, pos + width));
                lemma_le_bound(b);
                lemma_pow_mono(b.len(), 8);
            }
            acc = input[pos + i - 1] as u64 + 256 * acc;
            i = i - 1;
        }
    }
    Ok((acc, pos + width))
}

pub proof fn lemma_pow_mono(a: nat, b: nat)
    requires
        a <= b,
    ensures
        pow256(a) <= pow256(b),
    decreases b,
{
    if a < b {
        lemma_pow_mono(a, (b - 1) as nat);
    }
}

/// Continues a variable-length integer at `pos` with `acc` accumulated so far. Each
/// byte gives seven bits, most significant group first; a byte with its top bit set
/// is the last one. Before a byte is added, `acc` must be below `cap`.
pub open spec fn varint_from(s: Seq<u8>, pos: usize, cap: nat, acc: nat) -> SpecRes<u64>
    decreases s.len() - pos,
{
    if pos >= s.len() || pos == usize::MAX {
        Err(DecodeError::UnexpectedEof { offset: pos })
    } else if acc >= cap {
        Err(DecodeError::IntegerOverflow { offset: (pos + 1) as usize })
    } else {
        let b = s[pos as int];
        let x = acc * 128 + (b % 128) as nat;
        if b >= 128 {
            Ok((x as u64, (pos + 1) as usize))
        } else {
            varint_from(s, (pos + 1) as usize, cap, x)
        }
    }
}

/// A variable-length integer at `pos` whose value may not exceed `limit`.
pub open spec fn spec_unsigned(s: Seq<u8>, pos: usize, limit: u64) -> SpecRes<u64> {
    varint_from(s, pos, (limit / 128) as nat, 0)
}

/// Decodes a variable-length unsigned integer bounded by `limit`.
pub fn load_unsigned(input: &[u8], pos: usize, limit: u64) -> (r: Result<(u64, usize), DecodeError>)
    ensures
        r == spec_unsigned(input@, pos, limit),
{
    let ghost s = input@;
    let cap: u64 = limit / 128;
    let mut x: u64 = 0;
    let mut p: usize = pos;
    loop
        invariant
            s == input@,
            cap == limit / 128,
            varint_from(s, p, cap as nat, x as nat) == spec_unsigned(s, pos, limit),
        decreases input.len() - p,
    {
        if p >= input.len() {
            return Err(DecodeError::UnexpectedEof { offset: p });
        }
        let b = input[p];
        p = p + 1;
        if x >= cap {
            return Err(DecodeError::IntegerOverflow { offset: p });
        }
        proof {
            assert(x * 128 + 127 <= limit) by (nonlinear_arith)
                requires
                    x < cap,
                    cap == limit / 128,
            ;
        }
        x = x * 128 + (b % 128) as u64;
        if b >= 128 {
            return Ok((x, p));
        }
    }
}

/// Decodes a size field.
pub fn load_size(input: &[u8], pos: usize) -> (r: Result<(u64, usize), DecodeError>)
    ensures
        r == spec_unsigned(input@, pos, SIZE_LIMIT),
{
    load_unsigned(input, pos, SIZE_LIMIT)
}

/// Decodes an integer or count field.
pub fn lua_int(input: &[u8], pos: usize) -> (r: Result<(u64, usize), DecodeError>)
    ensures
        r == spec_unsigned(input@, pos, INT_LIMIT),
{
    load_unsigned(input, pos, INT_LIMIT)
}

/// A length-prefixed byte string: a size `n`, then `n - 1` bytes; a size of zero
/// also stands for the empty string.
pub open spec fn spec_string(s: Seq<u8>, pos: usize) -> SpecRes<Seq<u8>> {
    match spec_unsigned(s, pos, SIZE_LIMIT) {
        Err(e) => Err(e),
        Ok((n, p)) => {
            if n == 0 {
                Ok((Seq::empty(), p))
            } else if p + (n - 1) > s.len() {
                Err(DecodeError::UnexpectedEof { offset: p })
            } else {
                Ok((s.subrange(p as int, p + (n - 1)), (p + (n - 1)) as usize))
            }
        },
    }
}

/// Decodes a length-prefixed byte string.
pub fn load_string(input: &[u8], pos: usize) -> (r: Result<(Vec<u8>, usize), DecodeError>)
    ensures
        view_res(r) == spec_string(input@, pos),
{
    let (n, p) = load_size(input, pos)?;
    if n == 0 {
        return Ok((Vec::new(), p));
    }
    if p > input.len() || n - 1 > (input.len() - p) as u64 {
        return Err(DecodeError::UnexpectedEof { offset: p });
    }
    let len = (n - 1) as usize;
    let part = slice_subrange(input, p, p + len);
    let v = slice_to_vec(part);
    Ok((v, p + len))
}

/// The base-128 digits of `v`, most significant first, each with its top bit clear.
pub open spec fn base128_digits(v: nat) -> Seq<u8>
    decreases v,
{
    if v < 128 {
        seq![v as u8]
    } else {
        base128_digits(v / 128).push((v % 128) as u8)
    }
}

/// The reference encoding of `v` as a variable-length integer: the seven-bit groups
/// of `v`, most significant first, with the top bit set on the last byte only.
pub open spec fn varint_encode(v: nat) -> Seq<u8> {
    if v < 128 {
        seq![(v + 128) as u8]
    } else {
        base128_digits(v / 128).push((v % 128 + 128) as u8)
    }
}

proof fn lemma_digits_decode(s: Seq<u8>, pos: usize, cap: nat, v: nat)
    requires
        v < cap,
        pos + base128_digits(v).len() <= s.len(),
        s.len() <= usize::MAX,
        s.subrange(pos as int, pos + base128_digits(v).len()) == base128_digits(v),
    ensures
        forall|i: int| 0 <= i < base128_digits(v).len() ==> #[trigger] base128_digits(v)[i] < 128,
        varint_from(s, pos, cap, 0) == varint_from(
            s,
            (pos + base128_digits(v).len()) as usize,
            cap,
            v,
        ),
    decreases v,
{
    let d = base128_digits(v);
    if v < 128 {
        assert(s[pos as int] == d[0]);
    } else {
        let w = v / 128;
        let dw = base128_digits(w);
        assert(s.subrange(pos as int, pos + dw.len()) =~= d.subrange(0, dw.len() as int));
        assert(d.subrange(0, dw.len() as int) =~= dw);
        lemma_digits_decode(s, pos, cap, w);
        let q = pos + dw.len();
        assert(s[q] == d[dw.len() as int]);
        assert(w * 128 + v % 128 == v);
    }
}

/// Decoding the reference encoding of `v` gives back `v`, consuming exactly the
/// encoded bytes; the terminator bit is set on the last of them and on no other.
pub proof fn lemma_varint_round_trip(s: Seq<u8>, pos: usize, limit: u64, v: nat)
    requires
        v / 128 < limit / 128,
        s.len() <= usize::MAX,
        pos + varint_encode(v).len() <= s.len(),
        s.subrange(pos as int, pos + varint_encode(v).len()) == varint_encode(v),
    ensures
        spec_unsigned(s, pos, limit) == Ok::<(u64, usize), DecodeError>(
            (v as u64, (pos + varint_encode(v).len()) as usize),
        ),
        varint_encode(v).last() >= 128,
        forall|i: int| 0 <= i < varint_encode(v).len() - 1 ==> #[trigger] varint_encode(v)[i] < 128,
{
    let e = varint_encode(v);
    let cap = (limit / 128) as nat;
    assert(v < 0x1_0000_0000_0000_0000) by (nonlinear_arith)
        requires
            v / 128 < limit / 128,
            limit <= 0xffff_ffff_ffff_ffff,
    ;
    if v < 128 {
        assert(s[pos as int] == e[0]);
    } else {
        let w = v / 128;
        let dw = base128_digits(w);
        assert(s.subrange(pos as int, pos + dw.len()) =~= e.subrange(0, dw.len() as int));
        assert(e.subrange(0, dw.len() as int) =~= dw);
        lemma_digits_decode(s, pos, cap, w);
        let q = pos + dw.len();
        assert(s[q] == e[dw.len() as int]);
        assert(w * 128 + v % 128 == v);
        assert forall|i: int| 0 <= i < e.len() - 1 implies #[trigger] e[i] < 128 by {
            assert(e[i] == dw[i]);
        }
    }
}

} // verus!

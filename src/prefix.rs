//! Decoding a prefix of the input: every decoder that succeeds on the whole input
//! gives the same result on any prefix that still holds what it read, and runs out
//! of input on any shorter prefix.
use vstd::prelude::*;
use crate::prim::{
    spec_byte, spec_string, spec_uint, spec_unsigned, varint_from, INT_LIMIT, SIZE_LIMIT,
};
use crate::lua54::{
    byte_item, constant_item, instruction_item, local_item, source_line_item, spec_chunk,
    spec_chunk_debug, spec_chunk_head, spec_chunk_tables, spec_constant, spec_instruction,
    spec_local, spec_payload, spec_protos, spec_source_line, spec_upvalue, string_item,
    upvalue_item,
};
use crate::table::{counted, many, Item};
use crate::types::SpecRes;

verus! {

/// `r` is an end-of-input error.
pub open spec fn is_eof<T>(r: SpecRes<T>) -> bool {
    r is Err && r->Err_0 is UnexpectedEof
}

/// Given a successful result `whole` of a decoder started at `pos`, `cut` is what it
/// gives on the first `k` bytes of the same input, where `pos` lies within them: the
/// same result where those bytes hold all that was read, and an end-of-input error
/// where they do not. A successful decode also ends no earlier than it started.
pub open spec fn prefix_agrees<T>(k: nat, pos: usize, whole: SpecRes<T>, cut: SpecRes<T>) -> bool {
    whole is Ok ==> (pos <= whole->Ok_0.1 && (pos <= k ==> ((whole->Ok_0.1 <= k ==> cut == whole)
        && (k < whole->Ok_0.1 ==> is_eof(cut)))))
}

pub proof fn lemma_byte_prefix(s: Seq<u8>, pos: usize, k: nat)
    requires
        k <= s.len() <= usize::MAX,
    ensures
        prefix_agrees(k, pos, spec_byte(s, pos), spec_byte(s.take(k as int), pos)),
{
    let t = s.take(k as int);
    if pos < k {
        assert(t[pos as int] == s[pos as int]);
    }
}

pub proof fn lemma_uint_prefix(s: Seq<u8>, pos: usize, width: usize, big_endian: bool, k: nat)
    requires
        k <= s.len() <= usize::MAX,
    ensures
        prefix_agrees(
            k,
            pos,
            spec_uint(s, pos, width, big_endian),
            spec_uint(s.take(k as int), pos, width, big_endian),
        ),
{
    if spec_uint(s, pos, width, big_endian) is Ok && pos + width <= k {
        assert(s.take(k as int).subrange(pos as int, pos + width) =~= s.subrange(
            pos as int,
            pos + width,
        ));
    }
}

pub proof fn lemma_varint_prefix(s: Seq<u8>, pos: usize, cap: nat, acc: nat, k: nat)
    requires
        k <= s.len() <= usize::MAX,
    ensures
        prefix_agrees(
            k,
            pos,
            varint_from(s, pos, cap, acc),
            varint_from(s.take(k as int), pos, cap, acc),
        ),
    decreases s.len() - pos,
{
    if pos < s.len() && acc < cap {
        let b = s[pos as int];
        if pos < k {
            assert(s.take(k as int)[pos as int] == b);
        }
        if b < 128 {
            lemma_varint_prefix(s, (pos + 1) as usize, cap, acc * 128 + (b % 128) as nat, k);
        }
    }
}

pub proof fn lemma_unsigned_prefix(s: Seq<u8>, pos: usize, limit: u64, k: nat)
    requires
        k <= s.len() <= usize::MAX,
    ensures
        prefix_agrees(
            k,
            pos,
            spec_unsigned(s, pos, limit),
            spec_unsigned(s.take(k as int), pos, limit),
        ),
{
    lemma_varint_prefix(s, pos, (limit / 128) as nat, 0, k);
}

pub proof fn lemma_string_prefix(s: Seq<u8>, pos: usize, k: nat)
    requires
        k <= s.len() <= usize::MAX,
    ensures
        prefix_agrees(k, pos, spec_string(s, pos), spec_string(s.take(k as int), pos)),
{
    lemma_unsigned_prefix(s, pos, SIZE_LIMIT, k);
    if spec_string(s, pos) is Ok {
        let (n, p) = spec_unsigned(s, pos, SIZE_LIMIT)->Ok_0;
        if n > 0 && p + (n - 1) <= k {
            assert(s.take(k as int).subrange(p as int, p + (n - 1)) =~= s.subrange(
                p as int,
                p + (n - 1),
            ));
        }
    }
}

/// A decoder of one item agrees on the first `k` bytes of `s`, at every position.
pub open spec fn item_prefix_agrees<T>(s: Seq<u8>, k: nat, item: Item<T>) -> bool {
    forall|p: usize| prefix_agrees(k, p, #[trigger] item(s, p), item(s.take(k as int), p))
}

pub proof fn lemma_many_prefix<T>(s: Seq<u8>, pos: usize, n: nat, item: Item<T>, k: nat)
    requires
        k <= s.len() <= usize::MAX,
        item_prefix_agrees(s, k, item),
    ensures
        prefix_agrees(k, pos, many(s, pos, n, item), many(s.take(k as int), pos, n, item)),
    decreases n,
{
    if n > 0 {
        lemma_many_prefix(s, pos, (n - 1) as nat, item, k);
        if many(s, pos, (n - 1) as nat, item) is Ok {
            let p = many(s, pos, (n - 1) as nat, item)->Ok_0.1;
            assert(prefix_agrees(k, p, item(s, p), item(s.take(k as int), p)));
        }
    }
}

pub proof fn lemma_counted_prefix<T>(s: Seq<u8>, pos: usize, item: Item<T>, k: nat)
    requires
        k <= s.len() <= usize::MAX,
        item_prefix_agrees(s, k, item),
    ensures
        prefix_agrees(k, pos, counted(s, pos, item), counted(s.take(k as int), pos, item)),
{
    lemma_unsigned_prefix(s, pos, INT_LIMIT, k);
    if spec_unsigned(s, pos, INT_LIMIT) is Ok {
        let (n, p) = spec_unsigned(s, pos, INT_LIMIT)->Ok_0;
        lemma_many_prefix(s, p, n as nat, item, k);
    }
}

pub proof fn lemma_instruction_prefix(s: Seq<u8>, pos: usize, big_endian: bool, k: nat)
    requires
        k <= s.len() <= usize::MAX,
    ensures
        prefix_agrees(
            k,
            pos,
            spec_instruction(s, pos, big_endian),
            spec_instruction(s.take(k as int), pos, big_endian),
        ),
{
    lemma_uint_prefix(s, pos, 4, big_endian, k);
}

pub proof fn lemma_constant_prefix(s: Seq<u8>, pos: usize, k: nat)
    requires
        k <= s.len() <= usize::MAX,
    ensures
        prefix_agrees(k, pos, spec_constant(s, pos), spec_constant(s.take(k as int), pos)),
{
    lemma_byte_prefix(s, pos, k);
    if spec_byte(s, pos) is Ok {
        let (tag, p) = spec_byte(s, pos)->Ok_0;
        lemma_uint_prefix(s, p, 8, false, k);
        lemma_string_prefix(s, p, k);
        if pos < k {
            assert(spec_byte(s.take(k as int), pos) == spec_byte(s, pos));
            assert(spec_constant(s.take(k as int), pos) == spec_payload(s.take(k as int), tag, p, pos));
        }
    }
}

pub proof fn lemma_upvalue_prefix(s: Seq<u8>, pos: usize, k: nat)
    requires
        k <= s.len() <= usize::MAX,
    ensures
        prefix_agrees(k, pos, spec_upvalue(s, pos), spec_upvalue(s.take(k as int), pos)),
{
    lemma_byte_prefix(s, pos, k);
    lemma_byte_prefix(s, (pos + 1) as usize, k);
    lemma_byte_prefix(s, (pos + 2) as usize, k);
}

pub proof fn lemma_source_line_prefix(s: Seq<u8>, pos: usize, k: nat)
    requires
        k <= s.len() <= usize::MAX,
    ensures
        prefix_agrees(k, pos, spec_source_line(s, pos), spec_source_line(s.take(k as int), pos)),
{
    lemma_unsigned_prefix(s, pos, INT_LIMIT, k);
    if spec_unsigned(s, pos, INT_LIMIT) is Ok {
        lemma_unsigned_prefix(s, spec_unsigned(s, pos, INT_LIMIT)->Ok_0.1, INT_LIMIT, k);
    }
}

pub proof fn lemma_local_prefix(s: Seq<u8>, pos: usize, k: nat)
    requires
        k <= s.len() <= usize::MAX,
    ensures
        prefix_agrees(k, pos, spec_local(s, pos), spec_local(s.take(k as int), pos)),
{
    lemma_string_prefix(s, pos, k);
    if spec_string(s, pos) is Ok {
        let p1 = spec_string(s, pos)->Ok_0.1;
        lemma_unsigned_prefix(s, p1, INT_LIMIT, k);
        if spec_unsigned(s, p1, INT_LIMIT) is Ok {
            lemma_unsigned_prefix(s, spec_unsigned(s, p1, INT_LIMIT)->Ok_0.1, INT_LIMIT, k);
        }
    }
}

pub proof fn lemma_chunk_head_prefix(s: Seq<u8>, pos: usize, k: nat)
    requires
        k <= s.len() <= usize::MAX,
    ensures
        prefix_agrees(k, pos, spec_chunk_head(s, pos), spec_chunk_head(s.take(k as int), pos)),
{
    lemma_string_prefix(s, pos, k);
    if spec_string(s, pos) is Ok {
        let p1 = spec_string(s, pos)->Ok_0.1;
        lemma_unsigned_prefix(s, p1, INT_LIMIT, k);
        if spec_unsigned(s, p1, INT_LIMIT) is Ok {
            let p2 = spec_unsigned(s, p1, INT_LIMIT)->Ok_0.1;
            lemma_unsigned_prefix(s, p2, INT_LIMIT, k);
            if spec_unsigned(s, p2, INT_LIMIT) is Ok {
                let p3 = spec_unsigned(s, p2, INT_LIMIT)->Ok_0.1;
                lemma_byte_prefix(s, p3, k);
                lemma_byte_prefix(s, (p3 + 1) as usize, k);
                lemma_byte_prefix(s, (p3 + 2) as usize, k);
            }
        }
    }
}

pub proof fn lemma_chunk_tables_prefix(s: Seq<u8>, pos: usize, big_endian: bool, k: nat)
    requires
        k <= s.len() <= usize::MAX,
    ensures
        prefix_agrees(
            k,
            pos,
            spec_chunk_tables(s, pos, big_endian),
            spec_chunk_tables(s.take(k as int), pos, big_endian),
        ),
{
    let t = s.take(k as int);
    assert forall|p: usize|
        prefix_agrees(
            k,
            p,
            #[trigger] instruction_item(big_endian)(s, p),
            instruction_item(big_endian)(t, p),
        ) by {
        lemma_instruction_prefix(s, p, big_endian, k);
    }
    assert forall|p: usize| prefix_agrees(k, p, #[trigger] constant_item()(s, p), constant_item()(t, p)) by {
        lemma_constant_prefix(s, p, k);
    }
    assert forall|p: usize| prefix_agrees(k, p, #[trigger] upvalue_item()(s, p), upvalue_item()(t, p)) by {
        lemma_upvalue_prefix(s, p, k);
    }
    lemma_counted_prefix(s, pos, instruction_item(big_endian), k);
    if counted(s, pos, instruction_item(big_endian)) is Ok {
        let p1 = counted(s, pos, instruction_item(big_endian))->Ok_0.1;
        lemma_counted_prefix(s, p1, constant_item(), k);
        if counted(s, p1, constant_item()) is Ok {
            let p2 = counted(s, p1, constant_item())->Ok_0.1;
            lemma_counted_prefix(s, p2, upvalue_item(), k);
        }
    }
}

pub proof fn lemma_chunk_debug_prefix(s: Seq<u8>, pos: usize, k: nat)
    requires
        k <= s.len() <= usize::MAX,
    ensures
        prefix_agrees(k, pos, spec_chunk_debug(s, pos), spec_chunk_debug(s.take(k as int), pos)),
{
    let t = s.take(k as int);
    assert forall|p: usize| prefix_agrees(k, p, #[trigger] byte_item()(s, p), byte_item()(t, p)) by {
        lemma_byte_prefix(s, p, k);
    }
    assert forall|p: usize|
        prefix_agrees(k, p, #[trigger] source_line_item()(s, p), source_line_item()(t, p)) by {
        lemma_source_line_prefix(s, p, k);
    }
    assert forall|p: usize| prefix_agrees(k, p, #[trigger] local_item()(s, p), local_item()(t, p)) by {
        lemma_local_prefix(s, p, k);
    }
    assert forall|p: usize| prefix_agrees(k, p, #[trigger] string_item()(s, p), string_item()(t, p)) by {
        lemma_string_prefix(s, p, k);
    }
    lemma_counted_prefix(s, pos, byte_item(), k);
    if counted(s, pos, byte_item()) is Ok {
        let p1 = counted(s, pos, byte_item())->Ok_0.1;
        lemma_counted_prefix(s, p1, source_line_item(), k);
        if counted(s, p1, source_line_item()) is Ok {
            let p2 = counted(s, p1, source_line_item())->Ok_0.1;
            lemma_counted_prefix(s, p2, local_item(), k);
            if counted(s, p2, local_item()) is Ok {
                let p3 = counted(s, p2, local_item())->Ok_0.1;
                lemma_counted_prefix(s, p3, string_item(), k);
            }
        }
    }
}

pub proof fn lemma_chunk_prefix(s: Seq<u8>, pos: usize, big_endian: bool, room: nat, k: nat)
    requires
        k <= s.len() <= usize::MAX,
    ensures
        prefix_agrees(
            k,
            pos,
            spec_chunk(s, pos, big_endian, room),
            spec_chunk(s.take(k as int), pos, big_endian, room),
        ),
    decreases room, 0nat,
{
    if room > 0 {
        lemma_chunk_head_prefix(s, pos, k);
        if spec_chunk_head(s, pos) is Ok {
            let p1 = spec_chunk_head(s, pos)->Ok_0.1;
            lemma_chunk_tables_prefix(s, p1, big_endian, k);
            if spec_chunk_tables(s, p1, big_endian) is Ok {
                let p2 = spec_chunk_tables(s, p1, big_endian)->Ok_0.1;
                lemma_unsigned_prefix(s, p2, INT_LIMIT, k);
                if spec_unsigned(s, p2, INT_LIMIT) is Ok {
                    let (n, p3) = spec_unsigned(s, p2, INT_LIMIT)->Ok_0;
                    lemma_protos_prefix(s, p3, n as nat, big_endian, (room - 1) as nat, k);
                    if spec_protos(s, p3, n as nat, big_endian, (room - 1) as nat) is Ok {
                        let p4 = spec_protos(s, p3, n as nat, big_endian, (room - 1) as nat)->Ok_0.1;
                        lemma_chunk_debug_prefix(s, p4, k);
                    }
                }
            }
        }
    }
}

pub proof fn lemma_protos_prefix(s: Seq<u8>, pos: usize, n: nat, big_endian: bool, room: nat, k: nat)
    requires
        k <= s.len() <= usize::MAX,
    ensures
        prefix_agrees(
            k,
            pos,
            spec_protos(s, pos, n, big_endian, room),
            spec_protos(s.take(k as int), pos, n, big_endian, room),
        ),
    decreases room, n,
{
    if n > 0 {
        lemma_protos_prefix(s, pos, (n - 1) as nat, big_endian, room, k);
        if spec_protos(s, pos, (n - 1) as nat, big_endian, room) is Ok {
            let p = spec_protos(s, pos, (n - 1) as nat, big_endian, room)->Ok_0.1;
            lemma_chunk_prefix(s, p, big_endian, room, k);
        }
    }
}

} // verus!

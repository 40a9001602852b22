//! Count-prefixed tables: a count field followed by that many items of one kind.
use vstd::prelude::*;
use crate::prim::{spec_unsigned, INT_LIMIT};
use crate::types::{DecodeError, SpecRes};

verus! {

/// A decoder of one item, as a function of the input and a position.
pub type Item<T> = spec_fn(Seq<u8>, usize) -> SpecRes<T>;

/// `n` items in a row, starting at `pos`.
pub open spec fn many<T>(s: Seq<u8>, pos: usize, n: nat, item: Item<T>) -> SpecRes<Seq<T>>
    decreases n,
{
    if n == 0 {
        Ok((Seq::empty(), pos))
    } else {
        match many(s, pos, (n - 1) as nat, item) {
            Err(e) => Err(e),
            Ok((v, p)) => match item(s, p) {
                Err(e) => Err(e),
                Ok((x, q)) => Ok((v.push(x), q)),
            },
        }
    }
}

/// A count field, then that many items.
pub open spec fn counted<T>(s: Seq<u8>, pos: usize, item: Item<T>) -> SpecRes<Seq<T>> {
    match spec_unsigned(s, pos, INT_LIMIT) {
        Err(e) => Err(e),
        Ok((n, p)) => many(s, p, n as nat, item),
    }
}

/// Once a run of items fails, every longer run fails the same way.
pub proof fn lemma_many_err<T>(s: Seq<u8>, pos: usize, i: nat, n: nat, item: Item<T>)
    requires
        i <= n,
        many(s, pos, i, item) is Err,
    ensures
        many(s, pos, n, item) == many(s, pos, i, item),
    decreases n - i,
{
    if i < n {
        lemma_many_err(s, pos, i, (n - 1) as nat, item);
    }
}

/// A run of `n` items that decodes holds exactly `n` items.
pub proof fn lemma_many_len<T>(s: Seq<u8>, pos: usize, n: nat, item: Item<T>)
    requires
        many(s, pos, n, item) is Ok,
    ensures
        many(s, pos, n, item)->Ok_0.0.len() == n,
    decreases n,
{
    if n > 0 {
        lemma_many_len(s, pos, (n - 1) as nat, item);
    }
}

/// A table that decodes holds as many items as its count field says.
pub proof fn lemma_counted_len<T>(s: Seq<u8>, pos: usize, item: Item<T>)
    requires
        counted(s, pos, item) is Ok,
    ensures
        spec_unsigned(s, pos, INT_LIMIT) is Ok,
        counted(s, pos, item)->Ok_0.0.len() == spec_unsigned(s, pos, INT_LIMIT)->Ok_0.0,
{
    let n = spec_unsigned(s, pos, INT_LIMIT)->Ok_0.0;
    lemma_many_len(s, spec_unsigned(s, pos, INT_LIMIT)->Ok_0.1, n as nat, item);
}

} // verus!

//! The code stream as bytes: pairs of codes laid out group after group.
use vstd::prelude::*;
use crate::codes::NOOP;
use crate::packing::pack_spec;

verus! {

/// The bytes of the first `n` complete pairs of `c`.
pub open spec fn pack_pairs(c: Seq<u16>, n: nat) -> Seq<u8>
    decreases n,
{
    if n == 0 {
        seq![]
    } else {
        pack_pairs(c, (n - 1) as nat) + pack_spec(c[2 * n - 2], c[2 * n - 1])
    }
}

/// The bytes written for the codes `c`: every complete pair, in order; a last
/// unpaired code is still held back.
pub open spec fn pack_codes(c: Seq<u16>) -> Seq<u8> {
    pack_pairs(c, c.len() / 2)
}

/// How many bytes the codes `c` have put on the wire.
pub open spec fn written(c: Seq<u16>) -> nat {
    3 * (c.len() / 2)
}

/// `c` with a NOOP appended when a code is held back.
pub open spec fn pad(c: Seq<u16>) -> Seq<u16> {
    if c.len() % 2 == 1 {
        c.push(NOOP)
    } else {
        c
    }
}

pub proof fn lemma_pack_pairs_len(c: Seq<u16>, n: nat)
    ensures
        pack_pairs(c, n).len() == 3 * n,
    decreases n,
{
    if n > 0 {
        lemma_pack_pairs_len(c, (n - 1) as nat);
    }
}

pub proof fn lemma_pack_pairs_push(c: Seq<u16>, x: u16, n: nat)
    requires
        2 * n <= c.len(),
    ensures
        pack_pairs(c.push(x), n) == pack_pairs(c, n),
    decreases n,
{
    if n > 0 {
        lemma_pack_pairs_push(c, x, (n - 1) as nat);
    }
}

/// Sending one more code: it completes a pair or is held back.
pub proof fn lemma_pack_push(c: Seq<u16>, x: u16)
    ensures
        c.len() % 2 == 0 ==> pack_codes(c.push(x)) == pack_codes(c),
        c.len() % 2 == 1 ==> pack_codes(c.push(x)) == pack_codes(c) + pack_spec(c.last(), x),
        c.len() % 2 == 0 ==> written(c.push(x)) == written(c),
        c.len() % 2 == 1 ==> written(c.push(x)) == written(c) + 3,
        pack_codes(c).len() == written(c),
{
    let n = c.len() / 2;
    lemma_pack_pairs_push(c, x, n);
    lemma_pack_pairs_len(c, n);
    if c.len() % 2 == 1 {
        assert(c.push(x).len() / 2 == n + 1);
        assert(c.push(x)[2 * n as int] == c.last());
    } else {
        assert(c.push(x).len() / 2 == n);
    }
}

} // verus!

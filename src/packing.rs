//! Packing pairs of 12-bit codes into 3-byte groups, and back.
use vstd::prelude::*;

verus! {

/// The three bytes that carry the codes `a` and `b`.
pub open spec fn pack_spec(a: u16, b: u16) -> Seq<u8> {
    seq![
        (a & 0xff) as u8,
        ((((a >> 8u16) & 0x0f) << 4u16) | ((b & 0xff) >> 4u16)) as u8,
        (((b & 0x0f) << 4u16) | ((b >> 8u16) & 0x0f)) as u8,
    ]
}

/// The first code carried by a group.
pub open spec fn first_code(x: u8, y: u8) -> u16 {
    (x as u16) | (((y >> 4u8) as u16) << 8u16)
}

/// The second code carried by a group.
pub open spec fn second_code(y: u8, z: u8) -> u16 {
    ((((y << 4u8) | (z >> 4u8)) as u16)) | (((z & 0x0f) as u16) << 8u16)
}

/// Packs two codes into one group; only the low 12 bits of each are kept.
pub fn pack(a: u16, b: u16) -> (r: [u8; 3])
    ensures
        r@ == pack_spec(a, b),
{
    let x: u8 = (a & 0xff) as u8;
    let y: u8 = ((((a >> 8u16) & 0x0f) << 4u16) | ((b & 0xff) >> 4u16)) as u8;
    let z: u8 = (((b & 0x0f) << 4u16) | ((b >> 8u16) & 0x0f)) as u8;
    let r = [x, y, z];
    assert(r@ =~= pack_spec(a, b));
    r
}

/// Recovers the two codes carried by the group `x, y, z`.
pub fn unpack(x: u8, y: u8, z: u8) -> (r: (u16, u16))
    ensures
        r == (first_code(x, y), second_code(y, z)),
{
    let first: u16 = (x as u16) | (((y >> 4u8) as u16) << 8u16);
    let second: u16 = ((((y << 4u8) | (z >> 4u8)) as u16)) | (((z & 0x0f) as u16) << 8u16);
    (first, second)
}

/// Unpacking a packed group gives back both codes, for all 12-bit codes.
pub proof fn lemma_unpack_pack(a: u16, b: u16)
    requires
        a < 4096,
        b < 4096,
    ensures
        first_code(pack_spec(a, b)[0], pack_spec(a, b)[1]) == a,
        second_code(pack_spec(a, b)[1], pack_spec(a, b)[2]) == b,
{
    let x = (a & 0xff) as u8;
    let y = ((((a >> 8u16) & 0x0f) << 4u16) | ((b & 0xff) >> 4u16)) as u8;
    let z = (((b & 0x0f) << 4u16) | ((b >> 8u16) & 0x0f)) as u8;
    assert(((x as u16) | (((y >> 4u8) as u16) << 8u16)) == a) by (bit_vector)
        requires
            a < 4096,
            x == (a & 0xff) as u8,
            y == ((((a >> 8u16) & 0x0f) << 4u16) | ((b & 0xff) >> 4u16)) as u8,
    ;
    assert(((((y << 4u8) | (z >> 4u8)) as u16)) | (((z & 0x0f) as u16) << 8u16) == b) by (bit_vector)
        requires
            b < 4096,
            y == ((((a >> 8u16) & 0x0f) << 4u16) | ((b & 0xff) >> 4u16)) as u8,
            z == (((b & 0x0f) << 4u16) | ((b >> 8u16) & 0x0f)) as u8,
    ;
}

} // verus!

//! Three 32-bit coordinates packed into one 128-bit key, for hash maps and
//! sets keyed by position.

use vstd::prelude::*;

verus! {

/// The key of `(x, y, z)`: the coordinates, each shifted to be non-negative,
/// as base-2^32 digits.
pub open spec fn pack(p: (i32, i32, i32)) -> u128 {
    ((p.0 + 0x8000_0000) + (p.1 + 0x8000_0000) * 0x1_0000_0000 + (p.2 + 0x8000_0000)
        * 0x1_0000_0000_0000_0000) as u128
}

/// The coordinates whose key is `k`.
pub open spec fn unpack(k: u128) -> (i32, i32, i32) {
    (
        (k % 0x1_0000_0000 - 0x8000_0000) as i32,
        ((k / 0x1_0000_0000) % 0x1_0000_0000 - 0x8000_0000) as i32,
        (k / 0x1_0000_0000_0000_0000 - 0x8000_0000) as i32,
    )
}

/// Whether `k` is the key of some coordinates.
pub open spec fn is_key(k: u128) -> bool {
    k < 0x1_0000_0000_0000_0000_0000_0000
}

/// Unpacking a key of coordinates gives the coordinates back.
pub proof fn lemma_unpack_pack(p: (i32, i32, i32))
    ensures
        is_key(pack(p)),
        unpack(pack(p)) == p,
{
    let x = p.0 + 0x8000_0000;
    let y = p.1 + 0x8000_0000;
    let z = p.2 + 0x8000_0000;
    let k = x + 0x1_0000_0000 * (y + 0x1_0000_0000 * z);
    assert(k == pack(p));
    assert(k / 0x1_0000_0000 == y + 0x1_0000_0000 * z);
    assert(k / 0x1_0000_0000_0000_0000 == (k / 0x1_0000_0000) / 0x1_0000_0000);
}

/// Packing the coordinates of a key gives the key back.
pub proof fn lemma_pack_unpack(k: u128)
    requires
        is_key(k),
    ensures
        pack(unpack(k)) == k,
{
    assert(k / 0x1_0000_0000_0000_0000 == (k / 0x1_0000_0000) / 0x1_0000_0000);
}

/// Different coordinates have different keys.
pub proof fn lemma_pack_injective(p: (i32, i32, i32), q: (i32, i32, i32))
    ensures
        pack(p) == pack(q) <==> p == q,
{
    lemma_unpack_pack(p);
    lemma_unpack_pack(q);
}

/// The key of `(x, y, z)`.
pub fn key_of(x: i32, y: i32, z: i32) -> (k: u128)
    ensures
        k == pack((x, y, z)),
        is_key(k),
{
    proof {
        lemma_unpack_pack((x, y, z));
    }
    let a = (x as i64 + 0x8000_0000) as u128;
    let b = (y as i64 + 0x8000_0000) as u128;
    let c = (z as i64 + 0x8000_0000) as u128;
    a + b * 0x1_0000_0000 + c * 0x1_0000_0000_0000_0000
}

/// The coordinates whose key is `k`.
pub fn coords_of(k: u128) -> (p: (i32, i32, i32))
    requires
        is_key(k),
    ensures
        p == unpack(k),
        pack(p) == k,
{
    proof {
        lemma_pack_unpack(k);
        assert(k / 0x1_0000_0000_0000_0000 == (k / 0x1_0000_0000) / 0x1_0000_0000);
    }
    (
        ((k % 0x1_0000_0000) as i64 - 0x8000_0000) as i32,
        (((k / 0x1_0000_0000) % 0x1_0000_0000) as i64 - 0x8000_0000) as i32,
        ((k / 0x1_0000_0000_0000_0000) as i64 - 0x8000_0000) as i32,
    )
}

} // verus!

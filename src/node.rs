//! Double-array nodes: a pair of 32-bit fields whose top bits carry flags.
use vstd::prelude::*;

use crate::bytes::{le_bytes, pack_u32, unpack_u32, le_value, lemma_le_round_trip_fits, lemma_scale_values};

verus! {

/// A node of a double array.
///
/// The low 31 bits of `base` hold the XOR basis of the children (internal
/// node) or a payload (leaf); its top bit marks a leaf. The low 31 bits of
/// `check` hold the parent's index; its top bit marks a node whose child
/// labelled with the end marker carries a value. A vacant node has both
/// fields equal to `OFFSET_MASK`.
#[derive(Clone, Copy, Debug, PartialEq, Eq, Structural)]
pub struct Node {
    pub base: u32,
    pub check: u32,
}

impl Node {
    pub open spec fn spec_get_base(&self) -> u32 {
        self.base & 0x7fff_ffff
    }

    pub open spec fn spec_get_check(&self) -> u32 {
        self.check & 0x7fff_ffff
    }

    pub open spec fn spec_is_leaf(&self) -> bool {
        self.base & 0x8000_0000 != 0
    }

    pub open spec fn spec_has_leaf(&self) -> bool {
        self.check & 0x8000_0000 != 0
    }

    pub open spec fn spec_is_vacant(&self) -> bool {
        self.base == 0x7fff_ffff && self.check == 0x7fff_ffff
    }

    /// The eight bytes of a node: `base`, then `check`, little-endian.
    pub open spec fn encode(&self) -> Seq<u8> {
        le_bytes(self.base as nat, 4) + le_bytes(self.check as nat, 4)
    }

    /// Returns the payload of `base`.
    #[verifier::when_used_as_spec(spec_get_base)]
    pub fn get_base(&self) -> (r: u32)
        ensures
            r == self.spec_get_base(),
    {
        self.base & 0x7fff_ffff
    }

    /// Returns the payload of `check`.
    #[verifier::when_used_as_spec(spec_get_check)]
    pub fn get_check(&self) -> (r: u32)
        ensures
            r == self.spec_get_check(),
    {
        self.check & 0x7fff_ffff
    }

    /// Tells whether the node is a leaf.
    #[verifier::when_used_as_spec(spec_is_leaf)]
    pub fn is_leaf(&self) -> (r: bool)
        ensures
            r == self.spec_is_leaf(),
    {
        self.base & 0x8000_0000 != 0
    }

    /// Tells whether the node has a child labelled with the end marker.
    #[verifier::when_used_as_spec(spec_has_leaf)]
    pub fn has_leaf(&self) -> (r: bool)
        ensures
            r == self.spec_has_leaf(),
    {
        self.check & 0x8000_0000 != 0
    }

    /// Tells whether the node is vacant.
    #[verifier::when_used_as_spec(spec_is_vacant)]
    pub fn is_vacant(&self) -> (r: bool)
        ensures
            r == self.spec_is_vacant(),
    {
        self.base == 0x7fff_ffff && self.check == 0x7fff_ffff
    }

    /// Number of bytes of a serialized node.
    pub fn io_bytes() -> (r: usize)
        ensures
            r == 8,
    {
        8
    }

    /// Appends the eight bytes of the node to `dst`.
    pub(crate) fn serialize(&self, dst: &mut Vec<u8>)
        ensures
            final(dst)@ == old(dst)@ + self.encode(),
    {
        pack_u32(dst, self.base, 4);
        pack_u32(dst, self.check, 4);
        assert(final(dst)@ =~= old(dst)@ + self.encode());
    }

    /// Reads a node from the first eight bytes of `src`.
    pub(crate) fn deserialize(src: &[u8]) -> (r: Node)
        requires
            8 <= src@.len(),
        ensures
            r.base as nat == le_value(src@.take(4)),
            r.check as nat == le_value(src@.subrange(4, 8)),
    {
        let base = unpack_u32(src, 4);
        let rest = &src[4..8];
        let check = unpack_u32(rest, 4);
        assert(rest@.take(4) =~= src@.subrange(4, 8));
        Node { base, check }
    }
}

/// Facts on the flag bit and the payload of a field.
pub proof fn lemma_bits(x: u32)
    ensures
        x ^ 0 == x,
        x & 0x8000_0000 == 0 ==> x & 0x7fff_ffff == x,
        x & 0x8000_0000 != 0 ==> x != 0x7fff_ffff,
        x < 0x8000_0000 ==> x & 0x8000_0000 == 0 && x & 0x7fff_ffff == x,
        (x | 0x8000_0000) & 0x8000_0000 != 0,
        (x | 0x8000_0000) & 0x7fff_ffff == x & 0x7fff_ffff,
        (x | 0x8000_0000) != 0x7fff_ffff,
{
    assert(x ^ 0 == x && (x & 0x8000_0000 == 0 ==> x & 0x7fff_ffff == x) && (x & 0x8000_0000 != 0 ==> x != 0x7fff_ffff) && (x < 0x8000_0000
        ==> x & 0x8000_0000 == 0 && x & 0x7fff_ffff == x) && (x | 0x8000_0000) & 0x8000_0000 != 0 && (x | 0x8000_0000) & 0x7fff_ffff == x
        & 0x7fff_ffff && (x | 0x8000_0000) != 0x7fff_ffff) by (bit_vector);
}

/// The flag bit of the constants that mark free, fixed and vacant nodes.
pub proof fn lemma_constants()
    ensures
        0x7fff_ffffu32 & 0x7fff_ffff == 0x7fff_ffff,
        0x7fff_ffffu32 & 0x8000_0000 == 0,
        0xffff_ffffu32 & 0x8000_0000 != 0,
        0u32 & 0x8000_0000 == 0,
{
    assert(0x7fff_ffffu32 & 0x7fff_ffff == 0x7fff_ffff && 0x7fff_ffffu32 & 0x8000_0000 == 0 && 0xffff_ffffu32 & 0x8000_0000 != 0 && 0u32
        & 0x8000_0000 == 0) by (bit_vector);
}

/// XOR with the same basis is one to one.
pub proof fn lemma_xor_cancel(b: u32, x: u32, y: u32)
    ensures
        (b ^ x) == (b ^ y) ==> x == y,
        (b ^ x) == b ==> x == 0,
{
    assert(((b ^ x) == (b ^ y) ==> x == y) && ((b ^ x) == b ==> x == 0)) by (bit_vector);
}

/// Reading back the bytes of a node gives the node.
pub proof fn lemma_node_round_trip(n: Node, rest: Seq<u8>)
    ensures
        le_value((n.encode() + rest).take(4)) == n.base as nat,
        le_value((n.encode() + rest).subrange(4, 8)) == n.check as nat,
{
    lemma_scale_values();
    lemma_le_round_trip_fits(n.base as nat, 4);
    lemma_le_round_trip_fits(n.check as nat, 4);
    assert((n.encode() + rest).take(4) =~= le_bytes(n.base as nat, 4));
    assert((n.encode() + rest).subrange(4, 8) =~= le_bytes(n.check as nat, 4));
}

} // verus!

//! Little-endian packing of unsigned integers in one to four bytes.
use vstd::prelude::*;

verus! {

/// `256` to the power `i`.
pub open spec fn scale(i: nat) -> nat
    decreases i,
{
    if i == 0 {
        1
    } else {
        256 * scale((i - 1) as nat)
    }
}

/// The `k` little-endian bytes of `n` (higher bytes are dropped).
pub open spec fn le_bytes(n: nat, k: nat) -> Seq<u8> {
    Seq::new(k, |i: int| ((n / scale(i as nat)) % 256) as u8)
}

/// The number that the little-endian bytes `s` stand for.
pub open spec fn le_value(s: Seq<u8>) -> nat
    decreases s.len(),
{
    if s.len() == 0 {
        0
    } else {
        le_value(s.drop_last()) + (s.last() as nat) * scale((s.len() - 1) as nat)
    }
}

pub proof fn lemma_scale_values()
    ensures
        scale(0) == 1,
        scale(1) == 256,
        scale(2) == 0x1_0000,
        scale(3) == 0x100_0000,
        scale(4) == 0x1_0000_0000,
{
    reveal_with_fuel(scale, 5);
}

pub proof fn lemma_scale_positive(i: nat)
    ensures
        scale(i) > 0,
    decreases i,
{
    if i > 0 {
        lemma_scale_positive((i - 1) as nat);
    }
}

/// Packing then unpacking gives back the number modulo `256^k`.
pub proof fn lemma_le_round_trip(n: nat, k: nat)
    ensures
        le_value(le_bytes(n, k)) == n % scale(k),
    decreases k,
{
    if k == 0 {
        assert(le_bytes(n, 0) =~= Seq::<u8>::empty());
        assert(scale(0) == 1);
        assert(n % 1 == 0);
    } else {
        let p = (k - 1) as nat;
        lemma_le_round_trip(n, p);
        assert(le_bytes(n, k).drop_last() =~= le_bytes(n, p));
        lemma_scale_positive(p);
        vstd::arithmetic::div_mod::lemma_mod_breakdown(n as int, scale(p) as int, 256);
        assert(scale(k) == scale(p) * 256);
        let s = le_bytes(n, k);
        assert(s.last() as nat == (n / scale(p)) % 256);
        assert(le_value(s) == le_value(s.drop_last()) + (s.last() as nat) * scale(p));
        assert(n % (scale(p) * 256) == scale(p) * ((n / scale(p)) % 256) + n % scale(p));
        assert((s.last() as nat) * scale(p) == scale(p) * ((n / scale(p)) % 256)) by (nonlinear_arith)
            requires s.last() as nat == (n / scale(p)) % 256;
    }
}

/// Numbers below `256^k` survive packing into `k` bytes.
pub proof fn lemma_le_round_trip_fits(n: nat, k: nat)
    requires
        n < scale(k),
    ensures
        le_value(le_bytes(n, k)) == n,
{
    lemma_le_round_trip(n, k);
    vstd::arithmetic::div_mod::lemma_small_mod(n, scale(k));
}

/// The smallest number of bytes, at least one, that can encode `n`.
pub open spec fn byte_width(n: u32) -> u8 {
    if n < 0x100 {
        1
    } else if n < 0x1_0000 {
        2
    } else if n < 0x100_0000 {
        3
    } else {
        4
    }
}

/// Returns the smallest number of bytes that can encode `n`.
pub fn pack_size(n: u32) -> (r: u8)
    ensures
        r == byte_width(n),
        1 <= r <= 4,
        (n as nat) < scale(r as nat),
        r == 1 || (n as nat) >= scale((r - 1) as nat),
{
    proof {
        lemma_scale_values();
    }
    if n < 0x100 {
        1
    } else if n < 0x1_0000 {
        2
    } else if n < 0x100_0000 {
        3
    } else {
        4
    }
}

/// Appends the `nbytes` little-endian bytes of `n` to `dst`.
pub fn pack_u32(dst: &mut Vec<u8>, n: u32, nbytes: u8)
    requires
        1 <= nbytes <= 4,
    ensures
        final(dst)@ == old(dst)@ + le_bytes(n as nat, nbytes as nat),
{
    let ghost start = old(dst)@;
    let mut m: u32 = n;
    let mut i: u8 = 0;
    assert(scale(0) == 1);
    while i < nbytes
        invariant
            i <= nbytes <= 4,
            m as nat == (n as nat) / scale(i as nat),
            dst@ == start + le_bytes(n as nat, i as nat),
        decreases nbytes - i,
    {
        dst.push((m % 256) as u8);
        proof {
            lemma_scale_positive(i as nat);
            vstd::arithmetic::div_mod::lemma_div_denominator(n as int, scale(i as nat) as int, 256);
            assert(scale((i + 1) as nat) == scale(i as nat) * 256);
            assert(dst@ =~= start + le_bytes(n as nat, (i + 1) as nat));
        }
        m = m / 256;
        i = i + 1;
    }
}

/// Reads the `nbytes` little-endian bytes at the start of `src`.
pub fn unpack_u32(src: &[u8], nbytes: u8) -> (r: u32)
    requires
        1 <= nbytes <= 4,
        nbytes <= src@.len(),
    ensures
        r as nat == le_value(src@.take(nbytes as int)),
        (r as nat) < scale(nbytes as nat),
{
    let mut n: u32 = 0;
    let mut mult: u32 = 1;
    let mut i: u8 = 0;
    proof {
        lemma_scale_values();
        assert(src@.take(0) =~= Seq::<u8>::empty());
    }
    while i < nbytes
        invariant
            i <= nbytes <= 4,
            nbytes <= src@.len(),
            n as nat == le_value(src@.take(i as int)),
            (n as nat) < scale(i as nat),
            i < 4 ==> mult as nat == scale(i as nat),
            scale(0) == 1,
            scale(1) == 256,
            scale(2) == 0x1_0000,
            scale(3) == 0x100_0000,
            scale(4) == 0x1_0000_0000,
        decreases nbytes - i,
    {
        let b = src[i as usize] as u32;
        proof {
            assert(src@.take(i + 1).drop_last() =~= src@.take(i as int));
            assert(scale((i + 1) as nat) == 256 * scale(i as nat));
            assert((n as nat) + (b as nat) * scale(i as nat) < scale((i + 1) as nat)) by (nonlinear_arith)
                requires
                    (n as nat) < scale(i as nat),
                    b < 256,
                    scale((i + 1) as nat) == 256 * scale(i as nat);
        }
        n = n + b * mult;
        if i < 3 {
            mult = mult * 256;
        }
        i = i + 1;
    }
    n
}

} // verus!

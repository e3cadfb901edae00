//! Mapping of characters to dense codes ranked by frequency.
use vstd::prelude::*;

use crate::bytes::{le_bytes, le_value, lemma_le_round_trip_fits, lemma_scale_values, pack_u32, unpack_u32};
use crate::errors::{CrawdadError, InputError};
use crate::utils::lemma_char_range;

verus! {

broadcast use vstd::seq_lib::to_multiset_contains, vstd::seq_lib::to_multiset_len;

/// Table entry of a character that has no code.
pub const INVALID_CODE: u16 = 0xffff;

/// Largest number of characters that can be given a code.
pub const MAX_ALPHABET: usize = 0xffff;

/// Number of nonzero entries in `freqs`.
pub open spec fn count_nonzero(freqs: Seq<u32>) -> nat
    decreases freqs.len(),
{
    if freqs.len() == 0 {
        0
    } else {
        count_nonzero(freqs.drop_last()) + if freqs.last() != 0 { 1nat } else { 0nat }
    }
}

/// Sort key of character `c` with frequency `f`: higher frequencies first,
/// then smaller characters.
pub open spec fn rank_key(f: u32, c: int) -> (u32, u32) {
    ((0xffff_ffff - f) as u32, c as u32)
}

/// Lexicographical order on pairs, as std orders tuples.
pub open spec fn pair_le(a: (u32, u32), b: (u32, u32)) -> bool {
    a.0 < b.0 || (a.0 == b.0 && a.1 <= b.1)
}

pub open spec fn pair_lt(a: (u32, u32), b: (u32, u32)) -> bool {
    a.0 < b.0 || (a.0 == b.0 && a.1 < b.1)
}

/// The bytes of a code table, two little-endian bytes per code.
pub open spec fn encode_codes(t: Seq<u16>) -> Seq<u8>
    decreases t.len(),
{
    if t.len() == 0 {
        Seq::empty()
    } else {
        encode_codes(t.drop_last()) + le_bytes(t.last() as nat, 2)
    }
}

/// Relies on `slice::sort_unstable`: it permutes the items into ascending
/// order, comparing tuples lexicographically.
#[verifier::external_body]
fn sort_pairs(v: &mut Vec<(u32, u32)>)
    ensures
        final(v)@.to_multiset() == old(v)@.to_multiset(),
        forall|i: int, j: int| 0 <= i < j < final(v)@.len() ==> pair_le(final(v)@[i], final(v)@[j]),
{
    v.sort_unstable();
}

/// Relies on `char::from_u32`: the character with scalar value `v`, if `v`
/// is one, that is below `0x11_0000` and outside the surrogates
/// `0xD800..=0xDFFF`.
#[verifier::external_body]
fn char_from_u32(v: u32) -> (r: Option<char>)
    ensures
        r matches Some(c) ==> c as u32 == v,
        r is Some <==> (v < 0xD800 || (0xE000 <= v && v < 0x11_0000)),
{
    char::from_u32(v)
}

/// Returns the sort key of each character of nonzero frequency, by
/// increasing character.
fn ranked_chars(freqs: &[u32]) -> (r: Vec<(u32, u32)>)
    requires
        freqs@.len() <= 0x11_0000,
    ensures
        r@.len() == count_nonzero(freqs@),
        forall|k: int| 0 <= k < r@.len() ==> {
            let p = #[trigger] r@[k];
            &&& (p.1 as int) < freqs@.len()
            &&& freqs@[p.1 as int] != 0
            &&& p == rank_key(freqs@[p.1 as int], p.1 as int)
        },
        forall|x: int| 0 <= x < freqs@.len() && freqs@[x] != 0 ==> r@.contains(#[trigger] rank_key(freqs@[x], x)),
        forall|k1: int, k2: int| 0 <= k1 < k2 < r@.len() ==> #[trigger] r@[k1].1 < #[trigger] r@[k2].1,
{
    let mut sorted: Vec<(u32, u32)> = Vec::new();
    let mut c: usize = 0;
    while c < freqs.len()
        invariant
            c <= freqs@.len() <= 0x11_0000,
            sorted@.len() == count_nonzero(freqs@.take(c as int)),
            forall|k: int| 0 <= k < sorted@.len() ==> {
                let p = #[trigger] sorted@[k];
                &&& (p.1 as int) < c
                &&& freqs@[p.1 as int] != 0
                &&& p == rank_key(freqs@[p.1 as int], p.1 as int)
            },
            forall|x: int| 0 <= x < c && freqs@[x] != 0 ==> sorted@.contains(
                #[trigger] rank_key(freqs@[x], x),
            ),
            forall|k1: int, k2: int| 0 <= k1 < k2 < sorted@.len() ==> #[trigger] sorted@[k1].1 < #[trigger] sorted@[k2].1,
        decreases freqs@.len() - c,
    {
        assert(freqs@.take(c + 1).drop_last() =~= freqs@.take(c as int));
        if freqs[c] != 0 {
            let ghost before = sorted@;
            sorted.push((u32::MAX - freqs[c], c as u32));
            assert forall|x: int| 0 <= x < c + 1 && freqs@[x] != 0 implies sorted@.contains(
                #[trigger] rank_key(freqs@[x], x),
            ) by {
                if x < c {
                    let k = choose|k: int| 0 <= k < before.len() && before[k] == rank_key(freqs@[x], x);
                    assert(sorted@[k] == rank_key(freqs@[x], x));
                } else {
                    assert(sorted@[before.len() as int] == rank_key(freqs@[x], x));
                }
            }
        }
        c = c + 1;
    }
    assert(freqs@.take(freqs@.len() as int) =~= freqs@);
    sorted
}

/// Gives the character of the `k`-th entry of `sorted` code `k`, in a table
/// of `n` entries indexed by character.
fn assign_codes(sorted: &Vec<(u32, u32)>, n: usize, Ghost(freqs): Ghost<Seq<u32>>) -> (table: Vec<u16>)
    requires
        n == freqs.len(),
        sorted@.len() <= MAX_ALPHABET,
        sorted@.no_duplicates(),
        forall|k: int| 0 <= k < sorted@.len() ==> {
            let p = #[trigger] sorted@[k];
            &&& (p.1 as int) < freqs.len()
            &&& freqs[p.1 as int] != 0
            &&& p == rank_key(freqs[p.1 as int], p.1 as int)
        },
    ensures
        table@.len() == n,
        forall|c: int| 0 <= c < table@.len() && #[trigger] table@[c] != INVALID_CODE ==> {
            &&& (table@[c] as int) < sorted@.len()
            &&& sorted@[table@[c] as int].1 == c
        },
        forall|k: int| 0 <= k < sorted@.len() ==> #[trigger] table@[sorted@[k].1 as int] != INVALID_CODE,
        forall|k: int| 0 <= k < sorted@.len() ==> #[trigger] table@[sorted@[k].1 as int] == k,
{
    let mut table: Vec<u16> = vec![INVALID_CODE; n];
    let mut i: usize = 0;
    while i < sorted.len()
        invariant
            i <= sorted@.len() <= MAX_ALPHABET,
            table@.len() == freqs.len(),
            forall|k: int| 0 <= k < sorted@.len() ==> {
                let p = #[trigger] sorted@[k];
                &&& (p.1 as int) < freqs.len()
                &&& freqs[p.1 as int] != 0
                &&& p == rank_key(freqs[p.1 as int], p.1 as int)
            },
            forall|c: int| 0 <= c < table@.len() && #[trigger] table@[c] != INVALID_CODE ==> {
                &&& (table@[c] as int) < i
                &&& sorted@[table@[c] as int].1 == c
            },
            forall|k: int| 0 <= k < i ==> #[trigger] table@[sorted@[k].1 as int] != INVALID_CODE,
            forall|k: int| 0 <= k < i ==> #[trigger] table@[sorted@[k].1 as int] == k,
            sorted@.no_duplicates(),
        decreases sorted@.len() - i,
    {
        proof {
            assert forall|k: int| 0 <= k < i implies #[trigger] sorted@[k].1 != sorted@[i as int].1 by {
                if sorted@[k].1 == sorted@[i as int].1 {
                    assert(sorted@[k] == sorted@[i as int]);
                }
            }
        }
        let ch = sorted[i].1 as usize;
        table.set(ch, i as u16);
        i = i + 1;
    }
    table
}

/// A bijection from the characters seen in training to dense codes.
#[derive(Debug, PartialEq, Eq)]
pub struct CodeMapper {
    /// Code of each character, indexed by its scalar value; `INVALID_CODE`
    /// where the character has none.
    pub table: Vec<u16>,
    /// Number of assigned codes.
    pub alphabet_size: u32,
}

impl CodeMapper {
    /// The code of `c`, if it has one.
    pub open spec fn spec_get(&self, c: char) -> Option<u32> {
        let i = c as u32 as int;
        if i < self.table@.len() && self.table@[i] != INVALID_CODE {
            Some(self.table@[i] as u32)
        } else {
            None
        }
    }

    /// The bytes of the mapper.
    pub open spec fn encode(&self) -> Seq<u8> {
        le_bytes(self.table@.len(), 4) + encode_codes(self.table@) + le_bytes(
            self.alphabet_size as nat,
            4,
        )
    }

    /// The table built from `freqs` has this shape: every character of nonzero
    /// frequency gets a code below the alphabet size, the codes are distinct
    /// and follow the order of `rank_key`, and other characters get none.
    pub open spec fn ranks(&self, freqs: Seq<u32>) -> bool {
        &&& self.table@.len() == freqs.len()
        &&& self.alphabet_size as nat == count_nonzero(freqs)
        &&& forall|c: int| 0 <= c < freqs.len() ==> (#[trigger] freqs[c] == 0 <==> self.table@[c] == INVALID_CODE)
        &&& forall|c: int| 0 <= c < freqs.len() && self.table@[c] != INVALID_CODE
            ==> (#[trigger] self.table@[c] as nat) < self.alphabet_size
        &&& forall|c1: int, c2: int|
            0 <= c1 < freqs.len() && 0 <= c2 < freqs.len() && freqs[c1] != 0 && freqs[c2] != 0
            ==> (#[trigger] self.table@[c1] < #[trigger] self.table@[c2] <==> pair_lt(
                rank_key(freqs[c1], c1),
                rank_key(freqs[c2], c2),
            ))
    }

    /// Builds a mapper from the frequency of each character, indexed by its
    /// scalar value.
    pub fn new(freqs: &[u32]) -> (r: Result<Self, CrawdadError>)
        requires
            freqs@.len() <= 0x11_0000,
        ensures
            count_nonzero(freqs@) > MAX_ALPHABET <==> r is Err,
            r is Err ==> r == Err::<Self, CrawdadError>(
                CrawdadError::Input(InputError { msg: "# of character kinds must be no more than 65535." }),
            ),
            r matches Ok(m) ==> m.ranks(freqs@),
            r matches Ok(m) ==> (freqs@.len() > 0 && freqs@[0] == u32::MAX ==> m.table@[0] == 0),
    {
        let mut sorted = ranked_chars(freqs);
        if sorted.len() > MAX_ALPHABET {
            return Err(CrawdadError::input("# of character kinds must be no more than 65535."));
        }
        let ghost unsorted = sorted@;
        sort_pairs(&mut sorted);
        proof {
            assert forall|k: int| 0 <= k < sorted@.len() implies {
                let p = #[trigger] sorted@[k];
                &&& (p.1 as int) < freqs@.len()
                &&& freqs@[p.1 as int] != 0
                &&& p == rank_key(freqs@[p.1 as int], p.1 as int)
            } by {
                assert(sorted@.to_multiset().count(sorted@[k]) > 0);
                assert(unsorted.contains(sorted@[k]));
            }
            assert forall|x: int| 0 <= x < freqs@.len() && freqs@[x] != 0 implies sorted@.contains(
                #[trigger] rank_key(freqs@[x], x),
            ) by {
                assert(unsorted.to_multiset().count(rank_key(freqs@[x], x)) > 0);
            }
            assert(sorted@.len() == sorted@.to_multiset().len());
            assert(unsorted.len() == unsorted.to_multiset().len());
            assert(unsorted.no_duplicates()) by {
                assert forall|a: int, b: int| 0 <= a < unsorted.len() && 0 <= b < unsorted.len() && a != b implies unsorted[a] != unsorted[b] by {
                    if a < b {
                        assert(unsorted[a].1 < unsorted[b].1);
                    } else {
                        assert(unsorted[b].1 < unsorted[a].1);
                    }
                }
            }
            unsorted.lemma_multiset_has_no_duplicates();
            assert forall|x: (u32, u32)| sorted@.to_multiset().contains(x) implies sorted@.to_multiset().count(x) == 1 by {
                assert(unsorted.to_multiset().contains(x));
            }
            sorted@.lemma_multiset_has_no_duplicates_conv();
        }
        let table = assign_codes(&sorted, freqs.len(), Ghost(freqs@));
        let m = CodeMapper { table, alphabet_size: sorted.len() as u32 };
        proof {
            if freqs@.len() > 0 && freqs@[0] == u32::MAX {
                let k0 = choose|k: int| 0 <= k < sorted@.len() && sorted@[k] == rank_key(freqs@[0], 0);
                if k0 > 0 {
                    assert(pair_le(sorted@[0], sorted@[k0]));
                }
                assert(sorted@[0].1 == 0);
                assert(m.table@[sorted@[0].1 as int] == 0);
            }
            assert forall|c: int| 0 <= c < freqs@.len() implies (#[trigger] freqs@[c] == 0 <==> m.table@[c]
                == INVALID_CODE) by {
                if freqs@[c] != 0 {
                    let k = choose|k: int| 0 <= k < sorted@.len() && sorted@[k] == rank_key(freqs@[c], c);
                    assert(sorted@[k].1 as int == c);
                }
            }
            assert forall|c1: int, c2: int|
                0 <= c1 < freqs@.len() && 0 <= c2 < freqs@.len() && freqs@[c1] != 0 && freqs@[c2] != 0
                implies (#[trigger] m.table@[c1] < #[trigger] m.table@[c2] <==> pair_lt(
                rank_key(freqs@[c1], c1),
                rank_key(freqs@[c2], c2),
            )) by {
                let t1 = m.table@[c1] as int;
                let t2 = m.table@[c2] as int;
                assert(sorted@[t1] == rank_key(freqs@[c1], c1));
                assert(sorted@[t2] == rank_key(freqs@[c2], c2));
                if t1 < t2 {
                    assert(pair_le(sorted@[t1], sorted@[t2]));
                } else if t2 < t1 {
                    assert(pair_le(sorted@[t2], sorted@[t1]));
                }
            }
        }
        Ok(m)
    }

    /// Returns the number of assigned codes.
    pub fn alphabet_size(&self) -> (r: u32)
        ensures
            r == self.alphabet_size,
    {
        self.alphabet_size
    }

    /// Returns the code of `c`, or `None` if `c` was not seen in training.
    #[verifier::when_used_as_spec(spec_get)]
    pub fn get(&self, c: char) -> (r: Option<u32>)
        ensures
            r == self.spec_get(c),
    {
        let i = c as u32 as usize;
        if i < self.table.len() {
            let code = self.table[i];
            if code != INVALID_CODE {
                return Some(code as u32);
            }
        }
        None
    }

    /// Returns the character of each code, indexed by code.
    pub fn inverse(&self) -> (r: Vec<Option<char>>)
        requires
            self.table@.len() <= u32::MAX,
        ensures
            r@.len() == self.alphabet_size,
            forall|k: int| 0 <= k < r@.len() && #[trigger] r@[k] is Some ==> self.spec_get(r@[k]->Some_0) == Some(k as u32),
            forall|c: char| #[trigger] self.spec_get(c) is Some && (self.spec_get(c)->Some_0 as int) < self.alphabet_size ==> r@[self.spec_get(
                c,
            )->Some_0 as int] is Some,
    {
        let n = self.alphabet_size as usize;
        let mut inv: Vec<Option<char>> = vec![None; n];
        let mut i: usize = 0;
        while i < self.table.len()
            invariant
                i <= self.table@.len() <= u32::MAX,
                inv@.len() == n,
                n == self.alphabet_size,
                forall|k: int| 0 <= k < inv@.len() && #[trigger] inv@[k] is Some ==> self.spec_get(inv@[k]->Some_0) == Some(k as u32),
                forall|c: char| (c as u32 as int) < i && #[trigger] self.spec_get(c) is Some && (self.spec_get(c)->Some_0 as int) < n ==> inv@[self.spec_get(
                    c,
                )->Some_0 as int] is Some,
            decreases self.table@.len() - i,
        {
            let code = self.table[i];
            let ghost before = inv@;
            if code != INVALID_CODE && (code as usize) < n {
                if let Some(c) = char_from_u32(i as u32) {
                    proof {
                        lemma_char_range(c);
                        assert(self.spec_get(c) == Some(code as u32));
                    }
                    inv.set(code as usize, Some(c));
                }
            }
            proof {
                assert forall|c: char| (c as u32 as int) < i + 1 && #[trigger] self.spec_get(c) is Some && (self.spec_get(c)->Some_0 as int) < n implies inv@[
                    self.spec_get(c)->Some_0 as int] is Some by {
                    lemma_char_range(c);
                    if (c as u32 as int) == i {
                        assert((i as u32) < 0xD800 || (0xE000 <= (i as u32) && (i as u32) < 0x11_0000));
                    } else {
                        assert(before[self.spec_get(c)->Some_0 as int] is Some);
                    }
                }
            }
            i = i + 1;
        }
        inv
    }

    /// Returns the heap used by the table in bytes.
    pub fn heap_bytes(&self) -> (r: usize)
        requires
            self.table@.len() * 2 <= usize::MAX,
        ensures
            r == self.table@.len() * 2,
    {
        self.table.len() * 2
    }

    /// Returns the number of bytes of the serialized mapper.
    pub fn io_bytes(&self) -> (r: usize)
        requires
            self.table@.len() * 2 + 8 <= usize::MAX,
        ensures
            r == self.table@.len() * 2 + 8,
            r == self.encode().len(),
    {
        proof {
            lemma_encode_codes_len(self.table@);
        }
        self.table.len() * 2 + 8
    }

    /// Appends the bytes of the mapper to `dst`.
    pub fn serialize_into_vec(&self, dst: &mut Vec<u8>)
        requires
            self.table@.len() <= 0xffff_ffff,
        ensures
            final(dst)@ == old(dst)@ + self.encode(),
    {
        let ghost start = old(dst)@;
        pack_u32(dst, self.table.len() as u32, 4);
        let mut i: usize = 0;
        assert(self.table@.take(0) =~= Seq::<u16>::empty());
        while i < self.table.len()
            invariant
                i <= self.table@.len(),
                dst@ == start + le_bytes(self.table@.len(), 4) + encode_codes(self.table@.take(i as int)),
            decreases self.table@.len() - i,
        {
            pack_u32(dst, self.table[i] as u32, 2);
            assert(self.table@.take(i + 1).drop_last() =~= self.table@.take(i as int));
            assert(dst@ =~= start + le_bytes(self.table@.len(), 4) + encode_codes(
                self.table@.take(i + 1),
            ));
            i = i + 1;
        }
        assert(self.table@.take(self.table@.len() as int) =~= self.table@);
        pack_u32(dst, self.alphabet_size, 4);
        assert(final(dst)@ =~= old(dst)@ + self.encode());
    }

    /// Reads a mapper from the start of `src`; returns it with the bytes that
    /// follow it.
    pub fn deserialize_from_slice(src: &[u8]) -> (r: (Self, &[u8]))
        requires
            Self::fits(src@),
        ensures
            r.0.table@.len() == le_value(src@.take(4)),
            r.0.table@ == decode_codes(src@.skip(4), r.0.table@.len()),
            r.0.alphabet_size as nat == le_value(src@.subrange(4 + 2 * (r.0.table@.len() as int), 8 + 2 * (r.0.table@.len() as int))),
            r.1@ == src@.skip(8 + 2 * (r.0.table@.len() as int)),
    {
        let len = unpack_u32(src, 4) as usize;
        let src_len = src.len();
        let mut pos: usize = 4;
        let mut table: Vec<u16> = Vec::new();
        while table.len() < len
            invariant
                len == le_value(src@.take(4)),
                8 + 2 * len <= src@.len(),
                src_len == src@.len(),
                table@.len() <= len,
                pos == 4 + 2 * table@.len(),
                table@ == decode_codes(src@.skip(4), table@.len()),
            decreases len - table@.len(),
        {
            let code = unpack_u32(&src[pos..pos + 2], 2);
            proof {
                lemma_scale_values();
                assert(code < 0x1_0000);
                assert(src@.subrange(pos as int, pos + 2).take(2) =~= src@.skip(4).subrange(
                    2 * (table@.len() as int),
                    2 * (table@.len() as int) + 2,
                ));
            }
            table.push(code as u16);
            assert(table@ =~= decode_codes(src@.skip(4), table@.len()));
            pos = pos + 2;
        }
        let alphabet_size = unpack_u32(&src[pos..pos + 4], 4);
        assert(src@.subrange(pos as int, pos + 4).take(4) =~= src@.subrange(pos as int, pos + 4));
        (CodeMapper { table, alphabet_size }, &src[pos + 4..src.len()])
    }

    /// `src` is long enough for the table length that it starts with.
    pub open spec fn fits(src: Seq<u8>) -> bool {
        &&& 4 <= src.len()
        &&& 8 + 2 * le_value(src.take(4)) <= src.len()
    }
}

/// The first `n` codes in `s`, two little-endian bytes each.
pub open spec fn decode_codes(s: Seq<u8>, n: nat) -> Seq<u16> {
    Seq::new(n, |i: int| le_value(s.subrange(2 * i, 2 * i + 2)) as u16)
}

pub proof fn lemma_encode_codes_len(t: Seq<u16>)
    ensures
        encode_codes(t).len() == 2 * t.len(),
    decreases t.len(),
{
    if t.len() > 0 {
        lemma_encode_codes_len(t.drop_last());
    }
}

/// Each code of a table can be read back at its place in the bytes.
pub proof fn lemma_encode_codes_at(t: Seq<u16>, i: int)
    requires
        0 <= i < t.len(),
    ensures
        encode_codes(t).subrange(2 * i, 2 * i + 2) == le_bytes(t[i] as nat, 2),
    decreases t.len(),
{
    lemma_encode_codes_len(t.drop_last());
    if i < t.len() - 1 {
        lemma_encode_codes_at(t.drop_last(), i);
        assert(encode_codes(t).subrange(2 * i, 2 * i + 2) =~= encode_codes(t.drop_last()).subrange(
            2 * i,
            2 * i + 2,
        ));
    } else {
        assert(encode_codes(t).subrange(2 * i, 2 * i + 2) =~= le_bytes(t.last() as nat, 2));
    }
}

/// Reading back the bytes of a mapper gives the mapper.
pub proof fn lemma_mapper_round_trip(m: CodeMapper, rest: Seq<u8>)
    requires
        m.table@.len() <= 0xffff_ffff,
    ensures
        CodeMapper::fits(m.encode() + rest),
        le_value((m.encode() + rest).take(4)) == m.table@.len(),
        decode_codes((m.encode() + rest).skip(4), m.table@.len()) == m.table@,
        le_value((m.encode() + rest).subrange(4 + 2 * (m.table@.len() as int), 8 + 2 * (m.table@.len() as int)))
            == m.alphabet_size as nat,
        (m.encode() + rest).skip(8 + 2 * (m.table@.len() as int)) == rest,
{
    let s = m.encode() + rest;
    let n = m.table@.len();
    lemma_scale_values();
    lemma_encode_codes_len(m.table@);
    lemma_le_round_trip_fits(n, 4);
    lemma_le_round_trip_fits(m.alphabet_size as nat, 4);
    assert(s.take(4) =~= le_bytes(n, 4));
    assert(s.subrange(4 + 2 * (n as int), 8 + 2 * (n as int)) =~= le_bytes(m.alphabet_size as nat, 4));
    assert(s.skip(8 + 2 * (n as int)) =~= rest);
    assert forall|i: int| 0 <= i < n implies #[trigger] decode_codes(s.skip(4), n)[i] == m.table@[i] by {
        lemma_encode_codes_at(m.table@, i);
        assert(s.skip(4).subrange(2 * i, 2 * i + 2) =~= encode_codes(m.table@).subrange(2 * i, 2 * i + 2));
        lemma_le_round_trip_fits(m.table@[i] as nat, 2);
    }
    assert(decode_codes(s.skip(4), n) =~= m.table@);
}

} // verus!

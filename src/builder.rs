//! Construction of the double array from sorted records.
use vstd::prelude::*;

use crate::errors::{CrawdadError, InputError, ScaleError};
use crate::keys::{
    Record, freq_table, index_values, input_error, key_total, keys_of, kinds, kinds_upto, list_keys, make_freqs, make_prefix_free, occurs,
    prefix_free, records_from_keys, records_from_pairs, separated, str_keys, str_values, values_fit, values_of,
};
use crate::bytes::{byte_width, le_bytes, lemma_le_round_trip_fits, pack_u32};
use crate::mapper::{CodeMapper, INVALID_CODE, count_nonzero, pair_lt, rank_key};
use crate::node::{Node, lemma_bits, lemma_constants, lemma_xor_cancel};
use crate::trie::child_of;
use crate::utils::lemma_char_range;
use crate::{END_MARKER, OFFSET_MASK};

verus! {

/// A leaf's remaining characters and its value (minimal-prefix form).
pub struct Suffix {
    pub key: Vec<char>,
    pub value: u32,
    /// The leaf that holds the suffix.
    pub node: u32,
}

/// Builder of the double array.
///
/// While building, a node whose `check` has its top bit set is free; the
/// others are fixed. `head_idx` bounds the free nodes from below.
pub struct Builder {
    pub records: Vec<Record>,
    pub mapper: CodeMapper,
    pub nodes: Vec<Node>,
    pub minimal_prefix: bool,
    pub suffixes: Vec<Suffix>,
    pub labels: Vec<u32>,
    pub head_idx: u32,
    pub block_len: u32,
    /// For each arranged node, a record and a depth: the node spells the
    /// first `depth` characters of that record.
    pub spell: Ghost<Map<int, (int, int)>>,
}

/// `b` is a power of two.
pub open spec fn is_pow2(b: u32) -> bool {
    b > 0 && b & ((b - 1) as u32) == 0
}

proof fn lemma_xor_below(f: u32, x: u32, len: u32, b: u32)
    requires
        f < len,
        x < b,
        b > 0,
        b & ((b - 1) as u32) == 0,
        len & ((b - 1) as u32) == 0,
    ensures
        f ^ x < len,
{
    assert(f < len && x < b && b > 0 && b & ((b - 1) as u32) == 0 && len & ((b - 1) as u32) == 0 ==> f ^ x < len)
        by (bit_vector);
}

proof fn lemma_xor_small(x: u32, y: u32, b: u32)
    requires
        x < b,
        y < b,
        b > 0,
        b & ((b - 1) as u32) == 0,
    ensures
        x ^ y < b,
{
    assert(x < b && y < b && b > 0 && b & ((b - 1) as u32) == 0 ==> x ^ y < b) by (bit_vector);
}

proof fn lemma_xor_above(len: u32, x: u32, b: u32)
    requires
        x < b,
        b > 0,
        b & ((b - 1) as u32) == 0,
        len & ((b - 1) as u32) == 0,
    ensures
        len ^ x >= len,
{
    assert(x < b && b > 0 && b & ((b - 1) as u32) == 0 && len & ((b - 1) as u32) == 0 ==> len ^ x >= len)
        by (bit_vector);
}

proof fn lemma_xor_assoc(f: u32, x: u32, y: u32)
    ensures
        (f ^ x) ^ y == f ^ (x ^ y),
{
    assert((f ^ x) ^ y == f ^ (x ^ y)) by (bit_vector);
}

proof fn lemma_aligned_grow(len: u32, b: u32)
    requires
        len & ((b - 1) as u32) == 0,
        b > 0,
        b & ((b - 1) as u32) == 0,
        len + b <= 0xffff_ffff,
    ensures
        ((len + b) as u32) & ((b - 1) as u32) == 0,
{
    assert(len & ((b - 1) as u32) == 0 && b > 0 && b & ((b - 1) as u32) == 0 && len + b <= 0xffff_ffff ==> ((len + b) as u32) & ((b - 1) as u32) == 0) by (bit_vector);
}

proof fn lemma_pow2_double(b: u32)
    requires
        is_pow2(b),
        b < 0x1_0000,
    ensures
        b <= 0x8000,
        is_pow2((2 * b) as u32),
{
    assert(b > 0 && b & ((b - 1) as u32) == 0 && b < 0x1_0000 ==> b <= 0x8000) by (bit_vector);
    assert(b > 0 && b & ((b - 1) as u32) == 0 && b <= 0x8000 ==> ((2 * b) as u32) > 0 && ((2 * b) as u32) & ((2 * b) as u32 - 1) as u32 == 0)
        by (bit_vector);
}

proof fn lemma_set_flag(x: u32)
    requires
        x <= 0x7fff_ffff,
    ensures
        (x | 0x8000_0000) & 0x8000_0000 != 0,
        (x | 0x8000_0000) & 0x7fff_ffff == x,
{
    assert(x <= 0x7fff_ffff ==> (x | 0x8000_0000) & 0x8000_0000 != 0 && (x | 0x8000_0000) & 0x7fff_ffff == x)
        by (bit_vector);
}

/// Doubling `b` until it passes `max_code` (or reaches `0x1_0000`).
pub open spec fn pow2_above(b: u32, max_code: u32) -> u32
    decreases 0x2_0000 - b,
{
    if b > max_code || b >= 0x1_0000 || b == 0 {
        b
    } else {
        pow2_above((2 * b) as u32, max_code)
    }
}

/// Block length for an alphabet of `alphabet_size` codes: the smallest power
/// of two, at least two, above the largest code.
pub open spec fn block_len_for(alphabet_size: nat) -> u32 {
    pow2_above(2, (alphabet_size - 1) as u32)
}

/// Smallest power of two, at least two, above the largest code.
fn get_block_len(alphabet_size: u32) -> (r: u32)
    requires
        1 <= alphabet_size <= 0xffff,
    ensures
        is_pow2(r),
        2 <= r <= 0x1_0000,
        alphabet_size <= r,
        r == 2 || r / 2 < alphabet_size,
        r == block_len_for(alphabet_size as nat),
{
    let max_code = alphabet_size - 1;
    let mut b: u32 = 2;
    assert(is_pow2(2)) by (bit_vector);
    while b <= max_code
        invariant
            is_pow2(b),
            2 <= b <= 0x1_0000,
            max_code < 0xffff,
            max_code == alphabet_size - 1,
            b == 2 || b / 2 <= max_code,
            pow2_above(b, max_code) == pow2_above(2, max_code),
        decreases 0x1_0000 - b,
    {
        proof {
            lemma_pow2_double(b);
        }
        b = b * 2;
    }
    b
}

/// Every child slot `base ^ label` lies in the array and is free.
pub open spec fn fits(nodes: Seq<Node>, labels: Seq<u32>, base: u32) -> bool {
    forall|j: int| 0 <= j < labels.len() ==> ((base ^ #[trigger] labels[j]) as int) < nodes.len() && is_free(
        nodes,
        (base ^ labels[j]) as int,
    )
}

/// Node `i` of `nodes` is still free.
pub open spec fn is_free(nodes: Seq<Node>, i: int) -> bool {
    nodes[i].check & 0x8000_0000 != 0
}

/// Node `i` is fixed: not free, with a `check` below the flag bit.
pub open spec fn fixed_node(n: Node) -> bool {
    n.check & 0x8000_0000 == 0
}

/// Every character of `key` has a code below `b`.
pub open spec fn coded(m: CodeMapper, key: Seq<char>, b: u32) -> bool {
    forall|j: int| 0 <= j < key.len() ==> (#[trigger] m.spec_get(key[j]) is Some && m.spec_get(key[j])->Some_0 < b)
}

/// The code of the character at `d` of `key`.
pub open spec fn label_of(m: CodeMapper, key: Seq<char>, d: int) -> u32 {
    m.spec_get(key[d])->Some_0
}

/// The mapper gives distinct characters distinct codes.
pub open spec fn injective(m: CodeMapper) -> bool {
    forall|c1: char, c2: char| #[trigger] m.spec_get(c1) is Some && m.spec_get(c1) == #[trigger] m.spec_get(c2) ==> c1 == c2
}

/// Following the codes of `key` from node `n` through internal nodes ends
/// at a leaf; its payload.
pub open spec fn arr_lookup(m: CodeMapper, nodes: Seq<Node>, n: u32, key: Seq<char>) -> Option<u32>
    decreases key.len(),
{
    if key.len() == 0 {
        if (n as int) < nodes.len() && nodes[n as int].is_leaf() {
            Some(nodes[n as int].get_base())
        } else {
            None
        }
    } else {
        match m.spec_get(key[0]) {
            Some(k) => match child_of(nodes, n, k) {
                Some(c) => arr_lookup(m, nodes, c, key.skip(1)),
                None => None,
            },
            None => None,
        }
    }
}

/// Node `j` is passed after `n` when following the codes of `key`.
pub open spec fn on_path(m: CodeMapper, nodes: Seq<Node>, n: u32, key: Seq<char>, j: int) -> bool
    decreases key.len(),
{
    key.len() > 0 && match m.spec_get(key[0]) {
        Some(k) => match child_of(nodes, n, k) {
            Some(c) => c as int == j || on_path(m, nodes, c, key.skip(1), j),
            None => false,
        },
        None => false,
    }
}

/// Following the codes of `key` from node `n` until a leaf: the leaf and
/// the number of characters read.
pub open spec fn mp_path(m: CodeMapper, nodes: Seq<Node>, n: u32, key: Seq<char>) -> Option<(u32, nat)>
    decreases key.len(),
{
    if (n as int) < nodes.len() && nodes[n as int].is_leaf() {
        Some((n, 0nat))
    } else if key.len() == 0 {
        None
    } else {
        match m.spec_get(key[0]) {
            Some(k) => match child_of(nodes, n, k) {
                Some(c) => match mp_path(m, nodes, c, key.skip(1)) {
                    Some(p) => Some((p.0, p.1 + 1)),
                    None => None,
                },
                None => None,
            },
            None => None,
        }
    }
}

/// Following `key` from `n` reaches a leaf whose suffix holds the rest of
/// the key, without a trailing end marker, and `value`.
pub open spec fn mp_found(m: CodeMapper, nodes: Seq<Node>, sufs: Seq<Suffix>, n: u32, key: Seq<char>, value: u32) -> bool {
    match mp_path(m, nodes, n, key) {
        Some(p) => {
            let s = nodes[p.0 as int].get_base() as int;
            &&& (p.0 as int) < nodes.len()
            &&& nodes[p.0 as int].is_leaf()
            &&& p.1 <= key.len()
            &&& s < sufs.len()
            &&& sufs[s].key@ == without_end(key.skip(p.1 as int))
            &&& sufs[s].value == value
            &&& sufs[s].node == p.0
        },
        None => false,
    }
}

/// From an internal node, the leaf that the codes lead to is on the way.
proof fn lemma_mp_leaf_on_path(m: CodeMapper, nodes: Seq<Node>, n: u32, key: Seq<char>)
    requires
        mp_path(m, nodes, n, key) is Some,
        !((n as int) < nodes.len() && nodes[n as int].is_leaf()),
    ensures
        on_path(m, nodes, n, key, mp_path(m, nodes, n, key)->Some_0.0 as int),
    decreases key.len(),
{
    let k = m.spec_get(key[0])->Some_0;
    let c = child_of(nodes, n, k)->Some_0;
    let p = mp_path(m, nodes, c, key.skip(1))->Some_0;
    assert(mp_path(m, nodes, n, key)->Some_0.0 == p.0);
    if !((c as int) < nodes.len() && nodes[c as int].is_leaf()) {
        lemma_mp_leaf_on_path(m, nodes, c, key.skip(1));
    } else {
        assert(p.0 == c);
    }
}

/// Following codes to a leaf only reads the nodes on the way.
proof fn lemma_mp_path_frame(m: CodeMapper, a: Seq<Node>, b: Seq<Node>, n: u32, key: Seq<char>)
    requires
        mp_path(m, a, n, key) is Some,
        (n as int) < a.len(),
        (n as int) < b.len(),
        a[n as int].base == b[n as int].base,
        forall|j: int| on_path(m, a, n, key, j) ==> j < b.len() && same_shape(a[j], b[j]),
    ensures
        mp_path(m, b, n, key) == mp_path(m, a, n, key),
        forall|j: int| on_path(m, b, n, key, j) <==> on_path(m, a, n, key, j),
    decreases key.len(),
{
    if a[n as int].is_leaf() {
        if key.len() > 0 {
            assert forall|j: int| on_path(m, b, n, key, j) <==> on_path(m, a, n, key, j) by {
            }
        }
    } else if key.len() > 0 {
        let k = m.spec_get(key[0])->Some_0;
        let c = child_of(a, n, k)->Some_0;
        assert(on_path(m, a, n, key, c as int));
        assert(child_of(b, n, k) == Some(c));
        assert forall|j: int| on_path(m, a, c, key.skip(1), j) implies j < b.len() && same_shape(a[j], b[j]) by {
            assert(on_path(m, a, n, key, j));
        }
        lemma_mp_path_frame(m, a, b, c, key.skip(1));
        assert forall|j: int| on_path(m, b, n, key, j) <==> on_path(m, a, n, key, j) by {
            assert(on_path(m, b, n, key, j) == (c as int == j || on_path(m, b, c, key.skip(1), j)));
            assert(on_path(m, a, n, key, j) == (c as int == j || on_path(m, a, c, key.skip(1), j)));
        }
    }
}

/// Two nodes with the same basis and the same parent.
pub open spec fn same_shape(a: Node, b: Node) -> bool {
    a.base == b.base && a.get_check() == b.get_check()
}

/// Following codes only reads the nodes on the way: where they keep their
/// shape, the result and the way stay.
proof fn lemma_arr_lookup_frame(m: CodeMapper, a: Seq<Node>, b: Seq<Node>, n: u32, key: Seq<char>)
    requires
        arr_lookup(m, a, n, key) is Some,
        (n as int) < a.len(),
        (n as int) < b.len(),
        a[n as int].base == b[n as int].base,
        forall|j: int| on_path(m, a, n, key, j) ==> j < b.len() && same_shape(a[j], b[j]),
    ensures
        arr_lookup(m, b, n, key) == arr_lookup(m, a, n, key),
        forall|j: int| on_path(m, b, n, key, j) <==> on_path(m, a, n, key, j),
    decreases key.len(),
{
    if key.len() > 0 {
        let k = m.spec_get(key[0])->Some_0;
        let c = child_of(a, n, k)->Some_0;
        assert(on_path(m, a, n, key, c as int));
        assert(child_of(b, n, k) == Some(c));
        assert forall|j: int| on_path(m, a, c, key.skip(1), j) implies j < b.len() && same_shape(a[j], b[j]) by {
            assert(on_path(m, a, n, key, j));
        }
        lemma_arr_lookup_frame(m, a, b, c, key.skip(1));
        assert forall|j: int| on_path(m, b, n, key, j) <==> on_path(m, a, n, key, j) by {
            assert(on_path(m, b, n, key, j) == (c as int == j || on_path(m, b, c, key.skip(1), j)));
            assert(on_path(m, a, n, key, j) == (c as int == j || on_path(m, a, c, key.skip(1), j)));
        }
    }
}

/// Within a range at depth `d`, the characters at `d` do not decrease.
proof fn lemma_chars_sorted(recs: Seq<Record>, s: int, e: int, d: int, a: int, b: int)
    requires
        range_ok(recs, s, e, d),
        forall|k: int| 1 <= k < recs.len() ==> separated(#[trigger] recs[k - 1].key@, recs[k].key@),
        recs[s].key@.len() > d,
        s <= a <= b < e,
    ensures
        (recs[a].key@[d] as u32) <= (recs[b].key@[d] as u32),
    decreases b - a,
{
    if a < b {
        lemma_chars_sorted(recs, s, e, d, a, b - 1);
        let x = recs[b - 1].key@;
        let y = recs[b].key@;
        assert(separated(recs[b - 1].key@, recs[b].key@));
        let p = choose|p: int| 0 <= p < x.len() && p < y.len() && x.take(p) == y.take(p) && (#[trigger] x[p] as u32) < (y[p] as u32);
        assert(x.take(d) == recs[s].key@.take(d));
        assert(y.take(d) == recs[s].key@.take(d));
        if p < d {
            assert(x[p] == x.take(d)[p]);
            assert(y[p] == y.take(d)[p]);
        } else if p > d {
            assert(x[d] == x.take(p)[d]);
            assert(y[d] == y.take(p)[d]);
        }
    }
}

proof fn lemma_xor_injective(b: u32, x: u32, y: u32)
    requires
        x != y,
    ensures
        b ^ x != b ^ y,
{
    assert(x != y ==> b ^ x != b ^ y) by (bit_vector);
}

/// The records made prefix-free from `keys` are no longer in total than the
/// keys with one end marker each, and no more numerous.
proof fn lemma_rest_len_total(recs: Seq<Record>, keys: Seq<Seq<char>>, e: int)
    requires
        prefix_free(recs, keys),
        0 <= e <= recs.len(),
    ensures
        rest_len(recs, 0, e, 0) <= key_total(keys.take(e)),
        e <= key_total(keys.take(e)),
    decreases e,
{
    if e > 0 {
        lemma_rest_len_total(recs, keys, e - 1);
        assert(keys.take(e).drop_last() =~= keys.take(e - 1));
        assert(recs[e - 1].key@ == keys[e - 1] || recs[e - 1].key@ == keys[e - 1].push(END_MARKER));
    } else {
        assert(keys.take(0) =~= Seq::<Seq<char>>::empty());
    }
}

/// Keys of at most `l` characters give records of at most `l` characters
/// without the end marker.
pub proof fn lemma_max_plain_bound(recs: Seq<Record>, keys: Seq<Seq<char>>, l: nat)
    requires
        prefix_free(recs, keys),
        !occurs(keys, 0),
        forall|i: int| 0 <= i < keys.len() ==> #[trigger] keys[i].len() <= l,
    ensures
        max_plain_len(recs) <= l,
    decreases recs.len(),
{
    if recs.len() > 0 {
        let n = recs.len() - 1;
        let ks = keys.drop_last();
        assert forall|k: int| 0 <= k < recs.drop_last().len() implies #[trigger] recs.drop_last()[k].key@ == ks[k] || recs.drop_last()[k].key@
            == ks[k].push(END_MARKER) by {
            assert(recs[k].key@ == keys[k] || recs[k].key@ == keys[k].push(END_MARKER));
        }
        assert forall|k: int| 1 <= k < recs.drop_last().len() implies separated(#[trigger] recs.drop_last()[k - 1].key@, recs.drop_last()[k].key@) by {
            assert(separated(recs[k - 1].key@, recs[k].key@));
        }
        assert(!occurs(ks, 0)) by {
            if occurs(ks, 0) {
                let (a, b) = choose|a: int, b: int| 0 <= a < ks.len() && 0 <= b < ks[a].len() && #[trigger] ks[a][b] as u32 as int == 0;
                assert(keys[a][b] as u32 as int == 0);
            }
        }
        lemma_max_plain_bound(recs.drop_last(), ks, l);
        let key = recs.last().key@;
        let orig = keys[n];
        assert(key == orig || key == orig.push(END_MARKER));
        if key == orig.push(END_MARKER) {
            assert(without_end(key) =~= orig);
        } else if key.len() > 0 {
            assert(key.last() as u32 != 0) by {
                if key.last() as u32 == 0 {
                    assert(keys[n][key.len() - 1] as u32 as int == 0);
                }
            }
        }
    }
}

/// Tail records of suffixes of at most 255 characters, with codes and values
/// of at most four bytes, take at most 0x401 bytes each.
pub proof fn lemma_tails_need_bound(nodes: Seq<Node>, sufs: Seq<Suffix>, cs: u8, vs: u8, k: int)
    requires
        0 <= k <= sufs.len(),
        cs <= 4,
        vs <= 4,
        forall|x: int| 0 <= x < sufs.len() ==> (#[trigger] sufs[x]).key@.len() <= 0xff,
    ensures
        tails_need(nodes, sufs, cs, vs, k) <= 0x401 * k,
    decreases k,
{
    if k > 0 {
        lemma_tails_need_bound(nodes, sufs, cs, vs, k - 1);
        let l = sufs[k - 1].key@.len();
        assert(l * (cs as int) <= 0xff * 4) by (nonlinear_arith)
            requires l <= 0xff, cs <= 4;
    }
}

proof fn lemma_pow2_above_ge(b: u32, max_code: u32)
    requires
        b >= 2,
    ensures
        pow2_above(b, max_code) >= 2,
    decreases 0x2_0000 - b,
{
    if !(b > max_code || b >= 0x1_0000 || b == 0) {
        lemma_pow2_above_ge((2 * b) as u32, max_code);
    }
}

/// Total length beyond `d` of the keys of records `s..e`.
pub open spec fn rest_len(recs: Seq<Record>, s: int, e: int, d: int) -> int
    decreases e - s,
{
    if e <= s {
        0
    } else {
        rest_len(recs, s, e - 1, d) + (recs[e - 1].key@.len() - d)
    }
}

proof fn lemma_rest_len_split(recs: Seq<Record>, s: int, m: int, e: int, d: int)
    requires
        s <= m <= e,
    ensures
        rest_len(recs, s, e, d) == rest_len(recs, s, m, d) + rest_len(recs, m, e, d),
    decreases e - m,
{
    if e > m {
        lemma_rest_len_split(recs, s, m, e - 1, d);
    }
}

proof fn lemma_rest_len_shift(recs: Seq<Record>, s: int, e: int, d: int)
    requires
        s <= e,
    ensures
        rest_len(recs, s, e, d + 1) == rest_len(recs, s, e, d) - (e - s),
    decreases e - s,
{
    if e > s {
        lemma_rest_len_shift(recs, s, e - 1, d);
    }
}

proof fn lemma_rest_len_nonneg(recs: Seq<Record>, s: int, e: int, d: int)
    requires
        s <= e <= recs.len(),
        0 <= s,
        forall|i: int| s <= i < e ==> #[trigger] recs[i].key@.len() >= d,
    ensures
        rest_len(recs, s, e, d) >= 0,
        e > s && recs[s].key@.len() > d ==> rest_len(recs, s, e, d) >= 1,
    decreases e - s,
{
    if e > s {
        lemma_rest_len_nonneg(recs, s, e - 1, d);
        if e - 1 == s {
            assert(rest_len(recs, s, s, d) == 0);
        }
    }
}

/// Keys `s..e` share their first `d` characters; all but the first are
/// longer than `d`, and the first is only as long as `d` when it is alone.
pub open spec fn range_ok(recs: Seq<Record>, s: int, e: int, d: int) -> bool {
    &&& 0 <= s < e <= recs.len()
    &&& 0 <= d
    &&& forall|i: int| s <= i < e ==> #[trigger] recs[i].key@.len() >= d && recs[i].key@.take(d) == recs[s].key@.take(d)
    &&& forall|i: int| s < i < e ==> #[trigger] recs[i].key@.len() > d
    &&& recs[s].key@.len() == d ==> s + 1 == e
}

impl Builder {
    /// The array as it stands while building.
    pub open spec fn array_ok(&self) -> bool {
        &&& is_pow2(self.block_len)
        &&& 2 <= self.block_len <= 0x1_0000
        &&& 0 < self.nodes@.len() <= 0x7fff_ffff
        &&& (self.nodes@.len() as u32) & ((self.block_len - 1) as u32) == 0
        &&& self.head_idx <= self.nodes@.len()
        &&& forall|i: int| 0 <= i < self.head_idx ==> !is_free(self.nodes@, i)
    }

    /// Records as the arrangement needs them.
    pub open spec fn records_ok(&self) -> bool {
        &&& forall|i: int| 0 <= i < self.records@.len() ==> coded(self.mapper, #[trigger] self.records@[i].key@, self.block_len)
        &&& forall|i: int| 0 <= i < self.records@.len() ==> #[trigger] self.records@[i].value <= 0x7fff_ffff
        &&& forall|k: int| 1 <= k < self.records@.len() ==> separated(#[trigger] self.records@[k - 1].key@, self.records@[k].key@)
        &&& forall|i: int| 0 <= i < self.suffixes@.len() ==> coded(self.mapper, #[trigger] self.suffixes@[i].key@, self.block_len)
        &&& forall|i: int| 0 <= i < self.suffixes@.len() ==> #[trigger] self.suffixes@[i].value <= 0x7fff_ffff
    }

    /// The spelled nodes are fixed, and each but the root is linked to its
    /// parent.
    pub open spec fn spell_ok(&self) -> bool {
        &&& forall|j: int| #[trigger] self.spell@.contains_key(j) ==> 0 <= j < self.nodes@.len() && !is_free(self.nodes@, j)
        &&& forall|j: int| 0 < j < self.nodes@.len() && #[trigger] self.spell@.contains_key(j) ==> linked(
            self.mapper,
            self.records@,
            self.nodes@,
            self.spell@,
            j,
        )
    }

    /// When only node `n`, a leaf before, got a new basis, the spelling stays
    /// sound and the only node that became fixed is `n`.
    proof fn lemma_leaf_spell(&self, o: &Builder, n: int)
        requires
            o.spell_ok(),
            self.spell@ == o.spell@,
            self.same_config(o),
            0 <= n < o.nodes@.len(),
            o.nodes@[n].is_leaf(),
            self.nodes@ == o.nodes@.update(n, Node { base: self.nodes@[n].base, check: o.nodes@[n].check }),
        ensures
            self.spell_ok(),
            forall|j: int| 0 <= j < self.nodes@.len() && #[trigger] is_free(self.nodes@, j) == false && j != n ==> !is_free(o.nodes@, j),
    {
        assert forall|j: int| 0 < j < self.nodes@.len() && #[trigger] self.spell@.contains_key(j) implies linked(
            self.mapper,
            self.records@,
            self.nodes@,
            self.spell@,
            j,
        ) by {
            assert(linked(o.mapper, o.records@, o.nodes@, o.spell@, j));
            let p = o.nodes@[j].get_check() as int;
            assert(p != n);
            lemma_linked_frame(o.mapper, o.records@, o.nodes@, self.nodes@, o.spell@, self.spell@, j);
        }
        assert forall|j: int| #[trigger] self.spell@.contains_key(j) implies 0 <= j < self.nodes@.len() && !is_free(self.nodes@, j) by {
            assert(!is_free(o.nodes@, j));
        }
    }

    /// The mapper gives distinct characters distinct codes.
    pub open spec fn mapper_injective(&self) -> bool {
        injective(self.mapper)
    }

    /// Fields that the arrangement keeps.
    pub open spec fn same_setup(&self, o: &Builder) -> bool {
        &&& self.same_config(o)
        &&& self.spell@ == o.spell@
    }

    /// Fields that the arrangement keeps, the spelling aside.
    pub open spec fn same_config(&self, o: &Builder) -> bool {
        &&& self.records@ == o.records@
        &&& self.mapper == o.mapper
        &&& self.block_len == o.block_len
        &&& self.minimal_prefix == o.minimal_prefix
    }

    /// Creates an empty builder.
    pub fn new() -> (r: Self)
        ensures
            r.records@.len() == 0,
            r.nodes@.len() == 0,
            r.suffixes@.len() == 0,
            r.labels@.len() == 0,
            r.mapper.table@.len() == 0,
            r.mapper.alphabet_size == 0,
            r.head_idx == 0,
            r.block_len == 0,
            !r.minimal_prefix,
    {
        Builder {
            records: Vec::new(),
            mapper: CodeMapper { table: Vec::new(), alphabet_size: 0 },
            nodes: Vec::new(),
            minimal_prefix: false,
            suffixes: Vec::new(),
            labels: Vec::new(),
            head_idx: 0,
            block_len: 0,
            spell: Ghost(Map::empty()),
        }
    }

    /// Enables the minimal-prefix form.
    pub fn minimal_prefix(self) -> (r: Self)
        ensures
            r.minimal_prefix,
            r.records@ == self.records@,
            r.nodes@ == self.nodes@,
            r.suffixes@.len() == 0,
            r.labels@ == self.labels@,
            r.mapper == self.mapper,
            r.head_idx == self.head_idx,
            r.block_len == self.block_len,
    {
        let mut b = self;
        b.minimal_prefix = true;
        b.suffixes = Vec::new();
        b
    }

    /// Returns the number of nodes.
    pub fn num_nodes(&self) -> (r: u32)
        requires
            self.nodes@.len() <= u32::MAX,
        ensures
            r == self.nodes@.len(),
    {
        self.nodes.len() as u32
    }

    /// Tells whether node `i` is fixed.
    fn is_fixed(&self, i: u32) -> (r: bool)
        requires
            (i as int) < self.nodes@.len(),
        ensures
            r == !is_free(self.nodes@, i as int),
    {
        self.nodes[i as usize].check & 0x8000_0000 == 0
    }

    /// Fills the array with one block of free nodes and fixes the root.
    fn init_array(&mut self)
        requires
            is_pow2(old(self).block_len),
            2 <= old(self).block_len <= 0x1_0000,
        ensures
            final(self).array_ok(),
            final(self).same_setup(old(self)),
            final(self).suffixes@ == old(self).suffixes@,
            final(self).nodes@.len() == old(self).block_len,
            fixed_node(final(self).nodes@[0]),
            final(self).nodes@[0].base == 0xffff_ffff,
            forall|j: int| 0 < j < final(self).nodes@.len() ==> #[trigger] is_free(final(self).nodes@, j),
    {
        let mut nodes: Vec<Node> = Vec::new();
        let mut i: u32 = 0;
        while i < self.block_len
            invariant
                i <= self.block_len,
                nodes@.len() == i,
                forall|k: int| 0 <= k < i ==> #[trigger] nodes@[k] == (Node { base: 0xffff_ffff, check: 0xffff_ffff }),
            decreases self.block_len - i,
        {
            nodes.push(Node { base: 0xffff_ffff, check: 0xffff_ffff });
            i = i + 1;
        }
        self.nodes = nodes;
        self.head_idx = 0;
        let ghost before = self.nodes@;
        self.fix_node(0);
        proof { lemma_constants(); }
        proof { lemma_constants(); }
        assert forall|j: int| 0 < j < self.nodes@.len() implies #[trigger] is_free(self.nodes@, j) by {
            assert(self.nodes@[j] == before[j]);
        }
    }

    /// Takes node `i` out of the free nodes.
    fn fix_node(&mut self, i: u32)
        requires
            (i as int) < old(self).nodes@.len(),
            old(self).nodes@.len() <= 0x7fff_ffff,
            old(self).head_idx <= old(self).nodes@.len(),
            forall|k: int| 0 <= k < old(self).head_idx ==> !is_free(old(self).nodes@, k),
        ensures
            final(self).nodes@ == old(self).nodes@.update(i as int, Node { base: 0xffff_ffff, check: 0 }),
            final(self).head_idx <= final(self).nodes@.len(),
            forall|k: int| 0 <= k < final(self).head_idx ==> !is_free(final(self).nodes@, k),
            final(self).same_setup(old(self)),
            final(self).suffixes@ == old(self).suffixes@,
            final(self).labels@ == old(self).labels@,
    {
        self.nodes.set(i as usize, Node { base: 0xffff_ffff, check: 0 });
        proof { lemma_constants(); }
        let len = self.nodes.len();
        let ghost fixed = self.nodes@;
        assert forall|k: int| 0 <= k < self.head_idx implies !is_free(self.nodes@, k) by {
            if k != i {
                assert(self.nodes@[k] == old(self).nodes@[k]);
                assert(!is_free(old(self).nodes@, k));
            }
        }
        while (self.head_idx as usize) < len && self.is_fixed(self.head_idx)
            invariant
                len == self.nodes@.len(),
                len <= 0x7fff_ffff,
                self.nodes@ == fixed,
                fixed == old(self).nodes@.update(i as int, Node { base: 0xffff_ffff, check: 0 }),
                self.same_setup(old(self)),
                self.suffixes@ == old(self).suffixes@,
                self.labels@ == old(self).labels@,
                self.head_idx <= len,
                forall|k: int| 0 <= k < self.head_idx ==> !is_free(self.nodes@, k),
            decreases len - self.head_idx,
        {
            self.head_idx = self.head_idx + 1;
        }
    }

    /// Appends one block of free nodes.
    fn enlarge(&mut self) -> (r: Result<(), CrawdadError>)
        requires
            old(self).array_ok(),
        ensures
            final(self).same_setup(old(self)),
            final(self).suffixes@ == old(self).suffixes@,
            final(self).labels@ == old(self).labels@,
            r is Ok ==> {
                &&& final(self).array_ok()
                &&& final(self).nodes@.len() == old(self).nodes@.len() + old(self).block_len
                &&& final(self).nodes@.subrange(0, old(self).nodes@.len() as int) == old(self).nodes@
                &&& forall|k: int| old(self).nodes@.len() <= k < final(self).nodes@.len() ==> is_free(final(self).nodes@, k)
            },
            r is Err <==> old(self).nodes@.len() + old(self).block_len > 0x7fff_ffff,
            r is Err ==> final(self).nodes@ == old(self).nodes@ && final(self).head_idx == old(self).head_idx,
            r is Err ==> r == Err::<(), CrawdadError>(
                CrawdadError::Scale(crate::errors::ScaleError { arg: "num_nodes", max: OFFSET_MASK }),
            ),
    {
        let old_len = self.nodes.len() as u32;
        if OFFSET_MASK - old_len < self.block_len {
            return Err(CrawdadError::scale("num_nodes", OFFSET_MASK));
        }
        let new_len = old_len + self.block_len;
        let ghost before = self.nodes@;
        let mut i: u32 = old_len;
        while i < new_len
            invariant
                old_len <= i <= new_len,
                new_len <= 0x7fff_ffff,
                self.nodes@.len() == i,
                self.nodes@.subrange(0, old_len as int) == before,
                self.same_setup(old(self)),
                self.suffixes@ == old(self).suffixes@,
                self.labels@ == old(self).labels@,
                self.head_idx == old(self).head_idx,
                forall|k: int| 0 <= k < old_len ==> self.nodes@[k] == before[k],
                forall|k: int| old_len <= k < i ==> #[trigger] self.nodes@[k] == (Node { base: 0xffff_ffff, check: 0xffff_ffff }),
            decreases new_len - i,
        {
            self.nodes.push(Node { base: 0xffff_ffff, check: 0xffff_ffff });
            assert(self.nodes@.subrange(0, old_len as int) =~= before);
            i = i + 1;
        }
        proof {
            lemma_aligned_grow(old_len, self.block_len);
            assert(self.nodes@.len() as u32 == (old_len + self.block_len) as u32);
            assert forall|k: int| 0 <= k < self.head_idx implies !is_free(self.nodes@, k) by {
                assert(self.nodes@[k] == before[k]);
                assert(!is_free(old(self).nodes@, k));
            }
            lemma_constants();
            assert forall|k: int| old_len <= k < self.nodes@.len() implies is_free(self.nodes@, k) by {
                assert(self.nodes@[k] == (Node { base: 0xffff_ffff, check: 0xffff_ffff }));
            }
        }
        Ok(())
    }

    /// Tells whether every node `base ^ label` is free.
    fn verify_base(&self, base: u32) -> (r: bool)
        requires
            forall|j: int| 0 <= j < self.labels@.len() ==> ((base ^ #[trigger] self.labels@[j]) as int) < self.nodes@.len(),
        ensures
            r ==> forall|j: int| 0 <= j < self.labels@.len() ==> is_free(self.nodes@, (base ^ #[trigger] self.labels@[j]) as int),
            r == fits(self.nodes@, self.labels@, base),
    {
        let mut j: usize = 0;
        while j < self.labels.len()
            invariant
                forall|j: int| 0 <= j < self.labels@.len() ==> ((base ^ #[trigger] self.labels@[j]) as int) < self.nodes@.len(),
                forall|jj: int| 0 <= jj < j ==> is_free(self.nodes@, (base ^ #[trigger] self.labels@[jj]) as int),
            decreases self.labels@.len() - j,
        {
            if self.is_fixed(base ^ self.labels[j]) {
                assert(!is_free(self.nodes@, (base ^ self.labels@[j as int]) as int));
                return false;
            }
            j = j + 1;
        }
        true
    }

    /// Finds a basis whose child slots for the current labels are all free,
    /// trying the free nodes from the lowest.
    fn find_base(&self) -> (r: Option<u32>)
        requires
            self.array_ok(),
            self.labels@.len() > 0,
            forall|j: int| 0 <= j < self.labels@.len() ==> #[trigger] self.labels@[j] < self.block_len,
        ensures
            r matches Some(b) ==> forall|k: u32| k < self.block_len ==> ((b ^ k) as int) < self.nodes@.len(),
            r matches Some(b) ==> forall|j: int| 0 <= j < self.labels@.len() ==> is_free(self.nodes@, (b ^ #[trigger] self.labels@[j]) as int),
            r matches Some(b) ==> exists|f: u32| {
                &&& (f as int) < self.nodes@.len()
                &&& is_free(self.nodes@, f as int)
                &&& b == f ^ self.labels@[0]
                &&& forall|g: u32| (g as int) < f && #[trigger] is_free(self.nodes@, g as int) ==> !fits(self.nodes@, self.labels@, g ^ self.labels@[0])
            },
            r is None ==> forall|g: u32| (g as int) < self.nodes@.len() && #[trigger] is_free(self.nodes@, g as int) ==> !fits(self.nodes@, self.labels@, g ^ self.labels@[0]),
    {
        let len = self.nodes.len() as u32;
        let l0 = self.labels[0];
        let mut i: u32 = self.head_idx;
        assert forall|g: u32| (g as int) < i && #[trigger] is_free(self.nodes@, g as int) implies !fits(self.nodes@, self.labels@, g ^ l0) by {
            assert(!is_free(self.nodes@, g as int));
        }
        while i < len
            invariant
                self.array_ok(),
                len == self.nodes@.len(),
                self.labels@.len() > 0,
                l0 == self.labels@[0],
                forall|j: int| 0 <= j < self.labels@.len() ==> #[trigger] self.labels@[j] < self.block_len,
                self.head_idx <= i,
                forall|g: u32| (g as int) < i && #[trigger] is_free(self.nodes@, g as int) ==> !fits(self.nodes@, self.labels@, g ^ l0),
            decreases len - i,
        {
            if !self.is_fixed(i) {
                let base = i ^ l0;
                proof {
                    let b = self.block_len;
                    assert forall|k: u32| k < b implies ((base ^ k) as int) < self.nodes@.len() by {
                        lemma_xor_assoc(i, l0, k);
                        lemma_xor_small(l0, k, b);
                        lemma_xor_below(i, l0 ^ k, len, b);
                    }
                    assert forall|j: int| 0 <= j < self.labels@.len() implies ((base ^ #[trigger] self.labels@[j]) as int) < self.nodes@.len() by {
                        let k = self.labels@[j];
                        assert(k < b);
                    }
                }
                if self.verify_base(base) {
                    return Some(base);
                }
            }
            assert forall|g: u32| (g as int) < i + 1 && #[trigger] is_free(self.nodes@, g as int) implies !fits(self.nodes@, self.labels@, g ^ l0) by {
                if g == i {
                }
            }
            i = i + 1;
        }
        None
    }

    /// Collects the codes of the distinct characters at `depth` of records
    /// `spos..epos`.
    fn fetch_labels(&mut self, spos: usize, epos: usize, depth: usize)
        requires
            old(self).records_ok(),
            range_ok(old(self).records@, spos as int, epos as int, depth as int),
            old(self).records@[spos as int].key@.len() > depth,
        ensures
            final(self).labels@.len() > 0,
            forall|j: int| 0 <= j < final(self).labels@.len() ==> #[trigger] final(self).labels@[j] < final(self).block_len,
            forall|i: int| spos <= i < epos ==> final(self).labels@.contains(
                #[trigger] label_of(final(self).mapper, final(self).records@[i].key@, depth as int),
            ),
            forall|jj: int| #![trigger final(self).labels@[jj]] 0 <= jj < final(self).labels@.len() ==> exists|i: int| spos <= i < epos && final(self).labels@[jj] == #[trigger] label_of(
                final(self).mapper,
                final(self).records@[i].key@,
                depth as int,
            ),
            final(self).same_setup(old(self)),
            final(self).nodes@ == old(self).nodes@,
            final(self).head_idx == old(self).head_idx,
            final(self).suffixes@ == old(self).suffixes@,
    {
        self.labels.clear();
        let mut c1 = self.records[spos].key[depth];
        proof {
            assert(coded(self.mapper, self.records@[spos as int].key@, self.block_len));
            assert(self.mapper.spec_get(self.records@[spos as int].key@[depth as int]) is Some);
        }
        let mut i = spos + 1;
        let ghost mut k1: int = spos as int;
        let ghost mut wit: Seq<int> = Seq::empty();
        while i < epos
            invariant
                spos <= k1 < i,
                self.records@[k1].key@.len() > depth,
                self.records@[k1].key@[depth as int] == c1,
                wit.len() == self.labels@.len(),
                forall|jj: int| 0 <= jj < self.labels@.len() ==> spos <= #[trigger] wit[jj] < epos && self.labels@[jj] == label_of(
                    self.mapper,
                    self.records@[wit[jj]].key@,
                    depth as int,
                ),
                self.records_ok(),
                range_ok(self.records@, spos as int, epos as int, depth as int),
                spos < i <= epos,
                self.mapper.spec_get(c1) is Some,
                self.mapper.spec_get(c1)->Some_0 < self.block_len,
                forall|j: int| 0 <= j < self.labels@.len() ==> #[trigger] self.labels@[j] < self.block_len,
                self.same_setup(old(self)),
                self.nodes@ == old(self).nodes@,
                self.head_idx == old(self).head_idx,
                self.suffixes@ == old(self).suffixes@,
                old(self).records@[spos as int].key@.len() > depth,
                forall|k: int| spos <= k < i ==> self.records@[k].key@[depth as int] == c1 || self.labels@.contains(
                    #[trigger] label_of(self.mapper, self.records@[k].key@, depth as int),
                ),
            decreases epos - i,
        {
            proof {
                assert(self.records@[i as int].key@.len() > depth);
                assert(coded(self.mapper, self.records@[i as int].key@, self.block_len));
                assert(self.mapper.spec_get(self.records@[i as int].key@[depth as int]) is Some);
            }
            let c2 = self.records[i].key[depth];
            if c1 != c2 {
                let code = self.mapper.get(c1).unwrap();
                let ghost before = self.labels@;
                self.labels.push(code);
                proof {
                    assert forall|k: int| spos <= k < i implies self.records@[k].key@[depth as int] == c2 || self.labels@.contains(
                        #[trigger] label_of(self.mapper, self.records@[k].key@, depth as int),
                    ) by {
                        if self.records@[k].key@[depth as int] == c1 {
                            assert(self.labels@[before.len() as int] == code);
                        } else {
                            let x = label_of(self.mapper, self.records@[k].key@, depth as int);
                            let jj = choose|jj: int| 0 <= jj < before.len() && before[jj] == x;
                            assert(self.labels@[jj] == x);
                        }
                    }
                    assert(self.labels@[before.len() as int] == label_of(self.mapper, self.records@[k1].key@, depth as int));
                    wit = wit.push(k1);
                    assert forall|jj: int| 0 <= jj < self.labels@.len() implies spos <= #[trigger] wit[jj] < epos && self.labels@[jj] == label_of(
                        self.mapper,
                        self.records@[wit[jj]].key@,
                        depth as int,
                    ) by {
                        if jj < before.len() {
                            assert(self.labels@[jj] == before[jj]);
                        }
                    }
                }
                c1 = c2;
                proof {
                    k1 = i as int;
                }
            }
            i = i + 1;
        }
        let code = self.mapper.get(c1).unwrap();
        let ghost before = self.labels@;
        self.labels.push(code);
        proof {
            assert(self.labels@[before.len() as int] == label_of(self.mapper, self.records@[k1].key@, depth as int));
            wit = wit.push(k1);
            assert forall|jj: int| #![trigger self.labels@[jj]] 0 <= jj < self.labels@.len() implies exists|x: int| spos <= x < epos && self.labels@[jj] == #[trigger] label_of(
                self.mapper,
                self.records@[x].key@,
                depth as int,
            ) by {
                if jj < before.len() {
                    assert(self.labels@[jj] == before[jj]);
                }
                let x = wit[jj];
                assert(self.labels@[jj] == label_of(self.mapper, self.records@[x].key@, depth as int));
            }
            assert forall|k: int| spos <= k < epos implies self.labels@.contains(
                #[trigger] label_of(self.mapper, self.records@[k].key@, depth as int),
            ) by {
                if self.records@[k].key@[depth as int] == c1 {
                    assert(self.labels@[before.len() as int] == code);
                } else {
                    let x = label_of(self.mapper, self.records@[k].key@, depth as int);
                    let jj = choose|jj: int| 0 <= jj < before.len() && before[jj] == x;
                    assert(self.labels@[jj] == x);
                }
            }
        }
    }

    /// Chooses a basis for the children of `node_idx` labelled with the
    /// current labels and fixes those children.
    fn define_nodes(&mut self, node_idx: u32) -> (r: Result<u32, CrawdadError>)
        requires
            old(self).array_ok(),
            old(self).labels@.len() > 0,
            forall|j: int| 0 <= j < old(self).labels@.len() ==> #[trigger] old(self).labels@[j] < old(self).block_len,
            (node_idx as int) < old(self).nodes@.len(),
            !is_free(old(self).nodes@, node_idx as int),
        ensures
            final(self).same_config(old(self)),
            final(self).suffixes@ == old(self).suffixes@,
            r is Ok ==> final(self).array_ok(),
            r is Ok ==> final(self).nodes@.len() >= old(self).nodes@.len(),
            r is Ok ==> final(self).nodes@.len() <= old(self).nodes@.len() + old(self).block_len,
            r is Err ==> old(self).nodes@.len() + old(self).block_len > 0x7fff_ffff,
            r matches Ok(b) ==> forall|k: u32| k < final(self).block_len ==> ((b ^ k) as int) < final(self).nodes@.len(),
            r is Err ==> r == Err::<u32, CrawdadError>(
                CrawdadError::Scale(crate::errors::ScaleError { arg: "num_nodes", max: OFFSET_MASK }),
            ),
            r is Ok ==> forall|j: int| 0 <= j < old(self).nodes@.len() && !is_free(old(self).nodes@, j) && j != node_idx
                ==> #[trigger] final(self).nodes@[j] == old(self).nodes@[j],
            r matches Ok(b) ==> final(self).nodes@[node_idx as int] == (Node { base: b, check: old(self).nodes@[node_idx as int].check }),
            r matches Ok(b) ==> forall|jj: int| 0 <= jj < old(self).labels@.len() ==> {
                let c = (b ^ #[trigger] old(self).labels@[jj]) as int;
                &&& c < final(self).nodes@.len()
                &&& final(self).nodes@[c].check == node_idx
                &&& final(self).nodes@[c].base == 0xffff_ffff
                &&& (c >= old(self).nodes@.len() || is_free(old(self).nodes@, c))
            },
            r matches Ok(b) ==> forall|j: int| 0 <= j < final(self).nodes@.len() && !is_free(final(self).nodes@, j) && (j >= old(self).nodes@.len()
                || is_free(old(self).nodes@, j)) ==> exists|jj: int| 0 <= jj < old(self).labels@.len() && j == (b ^ #[trigger] old(self).labels@[jj]) as int,
            final(self).labels@ == old(self).labels@,
            final(self).spell@ == old(self).spell@,
    {
        let base = match self.find_base() {
            Some(b) => {
                proof {
                    assert forall|x: int| 0 <= x < self.nodes@.len() && (x >= old(self).nodes@.len() || is_free(old(self).nodes@, x))
                        implies is_free(self.nodes@, x) by {
                    }
                }
                b
            },
            None => {
                let old_len = self.nodes.len() as u32;
                let l0 = self.labels[0];
                let b = old_len ^ l0;
                match self.enlarge() {
                    Ok(()) => {},
                    Err(e) => return Err(e),
                }
                proof {
                    let bl = self.block_len;
                    let len = self.nodes@.len() as u32;
                    assert forall|k: u32| k < bl implies ((b ^ k) as int) < self.nodes@.len() by {
                        lemma_xor_assoc(old_len, l0, k);
                        lemma_xor_small(l0, k, bl);
                        lemma_xor_below(old_len, l0 ^ k, len, bl);
                    }
                    assert forall|x: int| 0 <= x < self.nodes@.len() && (x >= old(self).nodes@.len() || is_free(old(self).nodes@, x))
                        implies is_free(self.nodes@, x) by {
                        if x < old(self).nodes@.len() {
                            assert(self.nodes@[x] == self.nodes@.subrange(0, old(self).nodes@.len() as int)[x]);
                        }
                    }
                    assert forall|jj: int| 0 <= jj < self.labels@.len() implies ((b ^ #[trigger] self.labels@[jj]) as int) >= old_len by {
                        let k = self.labels@[jj];
                        lemma_xor_assoc(old_len, l0, k);
                        lemma_xor_small(l0, k, bl);
                        lemma_xor_above(old_len, l0 ^ k, bl);
                    }
                }
                b
            },
        };
        let nd = self.nodes[node_idx as usize];
        let ghost pre = self.nodes@;
        proof {
            assert forall|jj: int| 0 <= jj < self.labels@.len() implies ({
                let c = (base ^ #[trigger] self.labels@[jj]) as int;
                c >= old(self).nodes@.len() || is_free(old(self).nodes@, c)
            }) by {
            }
            assert forall|j: int| 0 <= j < old(self).nodes@.len() && !is_free(old(self).nodes@, j) implies #[trigger] pre[j] == old(self).nodes@[j] by {
            }
        }
        self.nodes.set(node_idx as usize, Node { base, check: nd.check });
        proof {
            assert forall|k: int| 0 <= k < self.head_idx implies !is_free(self.nodes@, k) by {
                assert(!is_free(pre, k));
            }
            assert forall|x: int| 0 <= x < self.nodes@.len() && !is_free(self.nodes@, x) && (x >= old(self).nodes@.len() || is_free(old(self).nodes@, x))
                implies exists|jj: int| 0 <= jj < 0 && x == (base ^ #[trigger] self.labels@[jj]) as int by {
                assert(is_free(pre, x));
                assert(x != node_idx);
            }
        }
        let mut j: usize = 0;
        while j < self.labels.len()
            invariant
                self.array_ok(),
                self.same_config(old(self)),
                self.suffixes@ == old(self).suffixes@,
                self.labels@ == old(self).labels@,
                j <= self.labels@.len(),
                self.nodes@.len() >= old(self).nodes@.len(),
                self.nodes@.len() <= old(self).nodes@.len() + old(self).block_len,
                (node_idx as int) < self.nodes@.len(),
                forall|j: int| 0 <= j < self.labels@.len() ==> #[trigger] self.labels@[j] < self.block_len,
                forall|k: u32| k < self.block_len ==> ((base ^ k) as int) < self.nodes@.len(),
                forall|jj: int| 0 <= jj < self.labels@.len() ==> ({
                    let c = (base ^ #[trigger] self.labels@[jj]) as int;
                    c >= old(self).nodes@.len() || is_free(old(self).nodes@, c)
                }),
                forall|jx: int| 0 <= jx < old(self).nodes@.len() && !is_free(old(self).nodes@, jx) && jx != node_idx
                    ==> #[trigger] self.nodes@[jx] == old(self).nodes@[jx],
                self.nodes@[node_idx as int] == (Node { base, check: old(self).nodes@[node_idx as int].check }),
                !is_free(old(self).nodes@, node_idx as int),
                (node_idx as int) < old(self).nodes@.len(),
                forall|jj: int| 0 <= jj < j ==> {
                    let c = (base ^ #[trigger] self.labels@[jj]) as int;
                    &&& c < self.nodes@.len()
                    &&& self.nodes@[c].check == node_idx
                    &&& self.nodes@[c].base == 0xffff_ffff
                },
                self.spell@ == old(self).spell@,
                forall|x: int| #![trigger is_free(self.nodes@, x)] 0 <= x < self.nodes@.len() && !is_free(self.nodes@, x) && (x >= old(self).nodes@.len() || is_free(old(self).nodes@, x))
                    ==> exists|jj: int| 0 <= jj < j && x == (base ^ #[trigger] self.labels@[jj]) as int,
            decreases self.labels@.len() - j,
        {
            let child = base ^ self.labels[j];
            assert((child as int) < self.nodes@.len());
            proof {
                let c = (base ^ self.labels@[j as int]) as int;
                assert(c >= old(self).nodes@.len() || is_free(old(self).nodes@, c));
                assert(c != node_idx);
            }
            let ghost before_fix = self.nodes@;
            self.fix_node(child);
            let ghost mid = self.nodes@;
            self.nodes.set(child as usize, Node { base: 0xffff_ffff, check: node_idx });
            proof {
                lemma_bits(node_idx);
                assert forall|k: int| 0 <= k < self.head_idx implies !is_free(self.nodes@, k) by {
                    if k != child {
                        assert(!is_free(mid, k));
                    }
                }
                assert forall|x: int| 0 <= x < self.nodes@.len() && !is_free(self.nodes@, x) && (x >= old(self).nodes@.len() || is_free(old(self).nodes@, x))
                    implies exists|jj: int| 0 <= jj < j + 1 && x == (base ^ #[trigger] self.labels@[jj]) as int by {
                    if x == child {
                        assert(x == (base ^ self.labels@[j as int]) as int);
                    } else {
                        assert(self.nodes@[x] == mid[x]);
                        assert(!is_free(mid, x));
                        assert(mid[x] == before_fix[x]);
                        assert(!is_free(before_fix, x));
                        let jj = choose|jj: int| 0 <= jj < j && x == (base ^ #[trigger] self.labels@[jj]) as int;
                        assert(x == (base ^ self.labels@[jj]) as int);
                    }
                }
            }
            j = j + 1;
        }
        proof {
            assert forall|x: int| 0 <= x < self.nodes@.len() && !is_free(self.nodes@, x) && (x >= old(self).nodes@.len() || is_free(old(self).nodes@, x))
                implies exists|jj: int| 0 <= jj < old(self).labels@.len() && x == (base ^ #[trigger] old(self).labels@[jj]) as int by {
                assert(is_free(self.nodes@, x) == false);
                assert(exists|jj: int| 0 <= jj < j && x == (base ^ #[trigger] self.labels@[jj]) as int);
                let jj = choose|jj: int| 0 <= jj < j && x == (base ^ #[trigger] self.labels@[jj]) as int;
                assert(j == self.labels@.len());
                assert(self.labels@ == old(self).labels@);
                assert(0 <= jj < old(self).labels@.len());
                assert(self.labels@[jj] == old(self).labels@[jj]);
                assert(x == (base ^ old(self).labels@[jj]) as int);
            }
        }
        Ok(base)
    }

    /// Arranges the subtrie of records `spos..epos`, which share their first
    /// `depth` characters, under node `node_idx`. Only `node_idx` and nodes
    /// that were free change; in the standard form, following the codes of
    /// each record from `node_idx` then reaches a leaf holding its value, over
    /// nodes that were free before.
    #[verifier::rlimit(100)]
    #[verifier::spinoff_prover]
    fn arrange_nodes(&mut self, spos: usize, epos: usize, depth: usize, node_idx: u32, Ghost(maxlen): Ghost<nat>) -> (r: Result<(), CrawdadError>)
        requires
            old(self).array_ok(),
            old(self).records_ok(),
            old(self).mapper_injective(),
            range_ok(old(self).records@, spos as int, epos as int, depth as int),
            (node_idx as int) < old(self).nodes@.len(),
            !is_free(old(self).nodes@, node_idx as int),
            old(self).spell_ok(),
            old(self).spell@.contains_key(node_idx as int),
            old(self).spell@[node_idx as int] == (spos as int, depth as int),
            old(self).nodes@[node_idx as int].base == 0xffff_ffff,
            old(self).suffixes@.len() <= spos,
            old(self).records@.len() <= 0x7fff_ffff,
            forall|k: int| 0 <= k < old(self).suffixes@.len() ==> (#[trigger] old(self).suffixes@[k]).key@.len() <= max_plain_len(old(self).records@),
            depth <= maxlen,
            forall|i: int| 0 <= i < old(self).records@.len() ==> #[trigger] old(self).records@[i].key@.len() <= maxlen,
        ensures
            final(self).same_config(old(self)),
            r is Ok ==> final(self).array_ok(),
            r is Ok ==> final(self).records_ok(),
            r is Ok ==> final(self).nodes@.len() >= old(self).nodes@.len(),
            r is Ok ==> final(self).nodes@.len() <= old(self).nodes@.len() + old(self).block_len * rest_len(
                old(self).records@,
                spos as int,
                epos as int,
                depth as int,
            ),
            r is Err ==> old(self).nodes@.len() + old(self).block_len * rest_len(
                old(self).records@,
                spos as int,
                epos as int,
                depth as int,
            ) > 0x7fff_ffff,
            r is Ok ==> final(self).suffixes@.len() <= epos,
            r is Err ==> r == Err::<(), CrawdadError>(
                CrawdadError::Scale(crate::errors::ScaleError { arg: "num_nodes", max: OFFSET_MASK }),
            ),
            r is Ok ==> forall|j: int| 0 <= j < old(self).nodes@.len() && !is_free(old(self).nodes@, j) && j != node_idx
                ==> #[trigger] final(self).nodes@[j] == old(self).nodes@[j],
            r is Ok ==> final(self).nodes@[node_idx as int].check == old(self).nodes@[node_idx as int].check,
            r is Ok ==> forall|j: int| 0 <= j < old(self).nodes@.len() && !is_free(old(self).nodes@, j)
                ==> !is_free(final(self).nodes@, j),
            r is Ok && !old(self).minimal_prefix ==> forall|i: int| spos <= i < epos ==> #[trigger] arr_lookup(
                final(self).mapper,
                final(self).nodes@,
                node_idx,
                final(self).records@[i].key@.skip(depth as int),
            ) == Some(final(self).records@[i].value),
            r is Ok ==> forall|i: int, j: int| spos <= i < epos && #[trigger] on_path(
                final(self).mapper,
                final(self).nodes@,
                node_idx,
                final(self).records@[i].key@.skip(depth as int),
                j,
            ) ==> 0 <= j < final(self).nodes@.len() && !is_free(final(self).nodes@, j) && (j >= old(self).nodes@.len()
                || is_free(old(self).nodes@, j)),
            r is Ok && old(self).minimal_prefix ==> forall|i: int| spos <= i < epos ==> #[trigger] mp_found(
                final(self).mapper,
                final(self).nodes@,
                final(self).suffixes@,
                node_idx,
                final(self).records@[i].key@.skip(depth as int),
                final(self).records@[i].value,
            ),
            r is Ok ==> final(self).suffixes@.len() >= old(self).suffixes@.len(),
            r is Ok ==> forall|k: int| 0 <= k < final(self).suffixes@.len() ==> (#[trigger] final(self).suffixes@[k]).key@.len() <= max_plain_len(
                old(self).records@,
            ),
            r is Ok ==> forall|k: int| 0 <= k < old(self).suffixes@.len() ==> #[trigger] final(self).suffixes@[k] == old(self).suffixes@[k],
            r is Ok ==> final(self).spell_ok(),
            r is Ok ==> forall|k: int| #[trigger] old(self).spell@.contains_key(k) ==> final(self).spell@.contains_key(k) && final(self).spell@[k]
                == old(self).spell@[k],
            r is Ok ==> forall|k: int| #[trigger] final(self).spell@.contains_key(k) && !old(self).spell@.contains_key(k) ==> k >= old(
                self,
            ).nodes@.len() || is_free(old(self).nodes@, k),
            r is Ok ==> forall|j: int| 0 <= j < final(self).nodes@.len() && #[trigger] is_free(final(self).nodes@, j) == false && (j == node_idx
                || j >= old(self).nodes@.len() || is_free(old(self).nodes@, j)) ==> final(self).spell@.contains_key(j) && finished(
                old(self).minimal_prefix,
                old(self).records@,
                final(self).suffixes@,
                final(self).nodes@,
                final(self).spell@,
                j,
            ),
        decreases maxlen - depth,
    {
        proof {
            lemma_constants();
            assert(old(self).nodes@[node_idx as int].is_leaf());
        }
        let key_len = self.records[spos].key.len();
        let ghost total = rest_len(self.records@, spos as int, epos as int, depth as int);
        let ghost blk = self.block_len as int;
        proof {
            lemma_rest_len_nonneg(self.records@, spos as int, epos as int, depth as int);
            assert(blk * total >= 0) by (nonlinear_arith)
                requires blk >= 0, total >= 0;
        }
        if self.minimal_prefix && spos + 1 == epos {
            let suffix_idx = self.suffixes.len() as u32;
            let nd = self.nodes[node_idx as usize];
            proof {
                lemma_set_flag(suffix_idx);
            }
            let ghost pre = self.nodes@;
            self.nodes.set(node_idx as usize, Node { base: suffix_idx | 0x8000_0000, check: nd.check });
            let key = tail_of(&self.records[spos].key, depth);
            let value = self.records[spos].value;
            proof {
                assert forall|k: int| 0 <= k < self.head_idx implies !is_free(self.nodes@, k) by {
                    assert(!is_free(pre, k));
                }
                assert(coded(self.mapper, self.records@[spos as int].key@, self.block_len));
                assert forall|j: int| 0 <= j < key@.len() implies (#[trigger] self.mapper.spec_get(key@[j]) is Some
                    && self.mapper.spec_get(key@[j])->Some_0 < self.block_len) by {
                    assert(key@[j] == self.records@[spos as int].key@[depth + j]);
                }
            }
            let ghost kv = key@;
            assert(coded(self.mapper, kv, self.block_len));
            let ghost before = self.suffixes@;
            self.suffixes.push(Suffix { key, value, node: node_idx });
            proof {
                assert forall|i: int| 0 <= i < self.suffixes@.len() implies coded(self.mapper, #[trigger] self.suffixes@[i].key@, self.block_len) by {
                    if i < self.suffixes@.len() - 1 {
                        assert(self.suffixes@[i] == before[i]);
                        assert(before == old(self).suffixes@);
                        assert(coded(old(self).mapper, old(self).suffixes@[i].key@, old(self).block_len));
                    } else {
                        assert(self.suffixes@[i].key@ == kv);
                    }
                }
                let key_d = self.records@[spos as int].key@.skip(depth as int);
                assert(mp_path(self.mapper, self.nodes@, node_idx, key_d) == Some((node_idx, 0nat)));
                assert(key_d.skip(0) =~= key_d);
                assert(self.nodes@[node_idx as int].get_base() == suffix_idx);
                assert(mp_found(self.mapper, self.nodes@, self.suffixes@, node_idx, key_d, self.records@[spos as int].value));
                assert forall|k: int| 0 <= k < old(self).suffixes@.len() implies #[trigger] self.suffixes@[k] == old(self).suffixes@[k] by {
                    assert(self.suffixes@[k] == before[k]);
                }
                assert forall|k: int| 0 <= k < self.suffixes@.len() implies (#[trigger] self.suffixes@[k]).key@.len() <= max_plain_len(self.records@) by {
                    if k < before.len() {
                        assert(self.suffixes@[k] == old(self).suffixes@[k]);
                    } else {
                        let rk = self.records@[spos as int].key@;
                        lemma_max_plain_len(self.records@);
                        assert(without_end(rk).len() <= max_plain_len(self.records@));
                        if rk.len() > 0 && rk.last() == END_MARKER {
                            assert(rk.skip(depth as int).len() == 0 || rk.skip(depth as int).last() == END_MARKER);
                        }
                    }
                }
                assert forall|k: int| 0 <= k < self.suffixes@.len() implies #[trigger] self.suffixes@[k].value <= 0x7fff_ffff by {
                    if k < before.len() {
                        assert(self.suffixes@[k] == old(self).suffixes@[k]);
                    } else {
                        assert(self.records@[spos as int].value <= 0x7fff_ffff);
                    }
                }
                self.lemma_leaf_spell(old(self), node_idx as int);
                assert(self.spell@[node_idx as int] == (spos as int, depth as int));
                assert(finished(self.minimal_prefix, self.records@, self.suffixes@, self.nodes@, self.spell@, node_idx as int));
            }
            return Ok(());
        }
        if !self.minimal_prefix && key_len == depth {
            let value = self.records[spos].value;
            let nd = self.nodes[node_idx as usize];
            let ghost pre = self.nodes@;
            proof {
                assert(self.records@[spos as int].value <= 0x7fff_ffff);
                lemma_set_flag(value);
            }
            self.nodes.set(node_idx as usize, Node { base: value | 0x8000_0000, check: nd.check });
            proof {
                assert forall|k: int| 0 <= k < self.head_idx implies !is_free(self.nodes@, k) by {
                    assert(!is_free(pre, k));
                }
                assert forall|i: int| spos <= i < epos implies #[trigger] arr_lookup(
                    self.mapper,
                    self.nodes@,
                    node_idx,
                    self.records@[i].key@.skip(depth as int),
                ) == Some(self.records@[i].value) by {
                    assert(i == spos);
                    assert(self.records@[i].key@.skip(depth as int).len() == 0);
                }
                self.lemma_leaf_spell(old(self), node_idx as int);
                assert(finished(self.minimal_prefix, self.records@, self.suffixes@, self.nodes@, self.spell@, node_idx as int));
            }
            return Ok(());
        }
        assert(key_len > depth);
        self.fetch_labels(spos, epos, depth);
        let ghost len0 = self.nodes@.len() as int;
        let base = match self.define_nodes(node_idx) {
            Ok(b) => b,
            Err(e) => {
                proof {
                    assert(total >= 1);
                    assert(blk * total >= blk) by (nonlinear_arith)
                        requires blk >= 0, total >= 1;
                }
                return Err(e);
            },
        };
        let ghost recs = self.records@;
        let ghost snap = self.nodes@;
        let ghost m = self.mapper;
        let ghost mp = self.minimal_prefix;
        proof {
            assert(((base ^ 0u32) as int) < snap.len());
            lemma_bits(base);
            lemma_bits(base);
            lemma_bits(node_idx);
            assert forall|i: int| spos <= i < epos implies ({
                let ch = (base ^ #[trigger] label_of(m, recs[i].key@, depth as int)) as int;
                &&& ch < snap.len()
                &&& snap[ch].check == node_idx
                &&& snap[ch].base == 0xffff_ffff
                &&& (ch >= old(self).nodes@.len() || is_free(old(self).nodes@, ch))
            }) by {
                let x = label_of(m, recs[i].key@, depth as int);
                let jj = choose|jj: int| 0 <= jj < self.labels@.len() && self.labels@[jj] == x;
                assert(self.labels@[jj] == x);
            }
        }
        let mut i1 = spos;
        proof {
            assert(self.spell@ == old(self).spell@);
            assert forall|j: int| #[trigger] self.spell@.contains_key(j) implies 0 <= j < self.nodes@.len() && !is_free(self.nodes@, j) by {
                assert(!is_free(old(self).nodes@, j));
                if j != node_idx {
                    assert(self.nodes@[j] == old(self).nodes@[j]);
                }
            }
            assert forall|j: int| 0 < j < self.nodes@.len() && #[trigger] self.spell@.contains_key(j) implies linked(
                self.mapper,
                self.records@,
                self.nodes@,
                self.spell@,
                j,
            ) by {
                assert(linked(old(self).mapper, old(self).records@, old(self).nodes@, old(self).spell@, j));
                let p = old(self).nodes@[j].get_check() as int;
                assert(p != node_idx);
                assert(!is_free(old(self).nodes@, p));
                assert(self.nodes@[p] == old(self).nodes@[p]);
                if j != node_idx {
                    assert(self.nodes@[j] == old(self).nodes@[j]);
                }
                lemma_linked_frame(old(self).mapper, old(self).records@, old(self).nodes@, self.nodes@, old(self).spell@, self.spell@, j);
            }
            assert forall|k: int| #[trigger] self.spell@.contains_key(k) && !old(self).spell@.contains_key(k) implies k >= old(self).nodes@.len() || is_free(old(self).nodes@, k) by {
            }
            assert forall|i: int| spos <= i < epos implies !self.spell@.contains_key((base ^ #[trigger] label_of(m, recs[i].key@, depth as int)) as int) by {
                let ch = (base ^ label_of(m, recs[i].key@, depth as int)) as int;
                if self.spell@.contains_key(ch) {
                    assert(!is_free(old(self).nodes@, ch));
                }
            }
            assert forall|j: int| 0 <= j < self.nodes@.len() && #[trigger] is_free(self.nodes@, j) == false && (j == node_idx || j >= old(self).nodes@.len()
                || is_free(old(self).nodes@, j)) && !pending(base, m, recs, depth as int, spos as int, epos as int, j)
                implies self.spell@.contains_key(j) && finished(mp, recs, self.suffixes@, self.nodes@, self.spell@, j) by {
                if j != node_idx {
                    let jj = choose|jj: int| 0 <= jj < self.labels@.len() && j == (base ^ #[trigger] self.labels@[jj]) as int;
                    let x = choose|x: int| spos <= x < epos && self.labels@[jj] == #[trigger] label_of(self.mapper, self.records@[x].key@, depth as int);
                    assert(j == (base ^ label_of(m, recs[x].key@, depth as int)) as int);
                    assert(pending(base, m, recs, depth as int, spos as int, epos as int, j));
                }
            }
            assert(spell_inv(*self, old(self).nodes@, old(self).spell@, base, node_idx as int, m, recs, mp, depth as int, spos as int, epos as int));
            assert(rest_len(recs, spos as int, spos as int, depth as int) == 0);
            let z = rest_len(recs, spos as int, spos as int, depth as int);
            assert(blk * (1 + z - (spos - spos)) == blk) by (nonlinear_arith)
                requires z == 0;
        }
        while i1 < epos
            invariant
                self.array_ok(),
                self.records_ok(),
                self.mapper_injective(),
                self.same_config(old(self)),
                recs == self.records@,
                m == self.mapper,
                mp == self.minimal_prefix,
                mp == old(self).minimal_prefix,
                range_ok(recs, spos as int, epos as int, depth as int),
                recs[spos as int].key@.len() > depth,
                depth < key_len,
                recs.len() <= 0x7fff_ffff,
                spos <= i1 <= epos,
                self.suffixes@.len() <= i1,
                self.block_len as int == blk,
                len0 == old(self).nodes@.len(),
                total == rest_len(recs, spos as int, epos as int, depth as int),
                self.nodes@.len() <= len0 + blk * (1 + rest_len(recs, spos as int, i1 as int, depth as int) - (i1 - spos)),
                self.nodes@.len() >= snap.len(),
                snap.len() >= old(self).nodes@.len(),
                (node_idx as int) < old(self).nodes@.len(),
                !is_free(old(self).nodes@, node_idx as int),
                node_idx < 0x8000_0000,
                base < 0x8000_0000,
                base & 0x8000_0000 == 0,
                base & 0x7fff_ffff == base,
                node_idx & 0x7fff_ffff == node_idx,
                node_idx & 0x8000_0000 == 0,
                snap[node_idx as int] == (Node { base, check: old(self).nodes@[node_idx as int].check }),
                forall|k: u32| k < self.block_len ==> ((base ^ k) as int) < snap.len(),
                forall|i: int| spos <= i < epos ==> ({
                    let ch = (base ^ #[trigger] label_of(m, recs[i].key@, depth as int)) as int;
                    &&& ch < snap.len()
                    &&& snap[ch].check == node_idx
                    &&& snap[ch].base == 0xffff_ffff
                    &&& (ch >= old(self).nodes@.len() || is_free(old(self).nodes@, ch))
                }),
                self.spell_ok(),
                spell_inv(*self, old(self).nodes@, old(self).spell@, base, node_idx as int, m, recs, mp, depth as int, i1 as int, epos as int),
                forall|k: int| #[trigger] old(self).spell@.contains_key(k) ==> 0 <= k < old(self).nodes@.len() && !is_free(old(self).nodes@, k),
                old(self).spell@.contains_key(node_idx as int),
                old(self).spell@[node_idx as int] == (spos as int, depth as int),
                forall|j: int| 0 <= j < old(self).nodes@.len() && !is_free(old(self).nodes@, j) && j != node_idx
                    ==> #[trigger] self.nodes@[j] == old(self).nodes@[j],
                self.nodes@[node_idx as int] == snap[node_idx as int],
                forall|j: int| 0 <= j < snap.len() && !is_free(snap, j) ==> !is_free(self.nodes@, j),
                forall|j: int| 0 <= j < old(self).nodes@.len() && !is_free(old(self).nodes@, j) ==> !is_free(self.nodes@, j),
                forall|i: int| i1 <= i < epos ==> #[trigger] self.nodes@[(base ^ label_of(m, recs[i].key@, depth as int)) as int]
                    == snap[(base ^ label_of(m, recs[i].key@, depth as int)) as int],
                i1 < epos ==> forall|i: int| spos <= i < i1 ==> (#[trigger] recs[i].key@[depth as int] as u32) < (recs[i1 as int].key@[depth as int] as u32),
                !mp ==> forall|i: int| spos <= i < i1 ==> #[trigger] arr_lookup(m, self.nodes@, node_idx, recs[i].key@.skip(depth as int))
                    == Some(recs[i].value),
                mp ==> forall|i: int| spos <= i < i1 ==> #[trigger] mp_found(m, self.nodes@, self.suffixes@, node_idx, recs[i].key@.skip(depth as int), recs[i].value),
                self.suffixes@.len() >= old(self).suffixes@.len(),
                forall|k: int| 0 <= k < old(self).suffixes@.len() ==> #[trigger] self.suffixes@[k] == old(self).suffixes@[k],
                forall|k: int| 0 <= k < self.suffixes@.len() ==> (#[trigger] self.suffixes@[k]).key@.len() <= max_plain_len(recs),
                forall|i: int, j: int| spos <= i < i1 && #[trigger] on_path(m, self.nodes@, node_idx, recs[i].key@.skip(depth as int), j)
                    ==> 0 <= j < self.nodes@.len() && !is_free(self.nodes@, j) && (j >= old(self).nodes@.len() || is_free(old(self).nodes@, j))
                    && (j == (base ^ label_of(m, recs[i].key@, depth as int)) as int || j >= snap.len() || is_free(snap, j)),
                depth < maxlen,
                forall|i: int| 0 <= i < recs.len() ==> #[trigger] recs[i].key@.len() <= maxlen,
            decreases epos - i1,
        {
            proof {
                if i1 > spos {
                    assert(recs[i1 as int].key@.len() > depth);
                }
            }
            let c1 = self.records[i1].key[depth];
            let mut i2 = i1 + 1;
            let ghost pre = self.nodes@;
            let ghost pre_sufs = self.suffixes@;
            let ghost head = *self;
            while i2 < epos && self.records[i2].key[depth] == c1
                invariant
                    *self == head,
                    self.nodes@ == pre,
                    self.suffixes@ == pre_sufs,
                    recs == self.records@,
                    range_ok(recs, spos as int, epos as int, depth as int),
                    spos <= i1 < i2 <= epos,
                    recs[i1 as int].key@.len() > depth,
                    recs[i1 as int].key@[depth as int] == c1,
                    forall|i: int| i1 <= i < i2 ==> #[trigger] recs[i].key@.len() > depth && recs[i].key@[depth as int] == c1,
                decreases epos - i2,
            {
                i2 = i2 + 1;
            }
            proof {
                assert forall|i: int| i1 <= i < i2 implies #[trigger] recs[i].key@.len() > (depth as int) && recs[i].key@[depth as int] == c1 by {
                    assert(recs[i].key@.len() > depth);
                }
                lemma_child_range(recs, spos as int, epos as int, depth as int, i1 as int, i2 as int, c1);
                assert(coded(self.mapper, recs[i1 as int].key@, self.block_len));
                assert(self.mapper.spec_get(recs[i1 as int].key@[depth as int]) is Some);
                if i2 < epos {
                    lemma_chars_sorted(recs, spos as int, epos as int, depth as int, (i2 - 1) as int, i2 as int);
                    assert(recs[i2 as int].key@[depth as int] != c1);
                }
            }
            let code = self.mapper.get(c1).unwrap();
            let child = base ^ code;
            let d1 = depth + 1;
            let ghost cidx = child as int;
            proof {
                assert(code == label_of(m, recs[i1 as int].key@, depth as int));
                assert(self.nodes@[cidx] == snap[cidx]);
                assert(snap[cidx].check == node_idx);
                assert(!is_free(self.nodes@, cidx)) by {
                    let c = snap[cidx].check;
                    assert(c == node_idx);
                }
            }
            let ghost pre_sp = self.spell@;
            let ghost pre_b = *self;
            proof {
                assert(!pre_sp.contains_key(cidx));
                assert(recs[spos as int].key@.take(depth as int) == recs[i1 as int].key@.take(depth as int));
            }
            self.spell = Ghost(self.spell@.insert(cidx, (i1 as int, (depth + 1) as int)));
            proof {
                assert(snap[cidx].base == 0xffff_ffff);
                lemma_constants();
                assert(self.nodes@[node_idx as int] == snap[node_idx as int]);
                assert(linked(self.mapper, self.records@, self.nodes@, self.spell@, cidx)) by {
                    assert(self.nodes@[cidx].get_check() == node_idx);
                    assert(self.nodes@[node_idx as int].get_base() == base);
                    assert(pre_sp.contains_key(node_idx as int));
                    assert(pre_sp[node_idx as int] == (spos as int, depth as int));
                    assert(cidx != node_idx);
                    assert(self.spell@[node_idx as int] == (spos as int, depth as int));
                    assert(recs[i1 as int].key@.len() > depth);
                    assert(self.mapper.spec_get(recs[i1 as int].key@[depth as int]) == Some(code));
                }
                assert forall|j: int| #[trigger] self.spell@.contains_key(j) implies 0 <= j < self.nodes@.len() && !is_free(self.nodes@, j) by {
                    if j != cidx {
                        assert(pre_sp.contains_key(j));
                    }
                }
                assert forall|j: int| 0 < j < self.nodes@.len() && #[trigger] self.spell@.contains_key(j) implies linked(
                    self.mapper,
                    self.records@,
                    self.nodes@,
                    self.spell@,
                    j,
                ) by {
                    if j != cidx {
                        assert(pre_sp.contains_key(j));
                        assert(linked(self.mapper, self.records@, self.nodes@, pre_sp, j));
                        let p = self.nodes@[j].get_check() as int;
                        assert(p != cidx);
                        lemma_linked_frame(self.mapper, self.records@, self.nodes@, self.nodes@, pre_sp, self.spell@, j);
                    }
                }
            }
            let ghost pre_len = self.nodes@.len() as int;
            proof {
                lemma_rest_len_shift(recs, i1 as int, i2 as int, depth as int);
                lemma_rest_len_split(recs, spos as int, i1 as int, i2 as int, depth as int);
                lemma_rest_len_split(recs, spos as int, i2 as int, epos as int, depth as int);
                lemma_rest_len_nonneg(recs, i2 as int, epos as int, depth as int);
            }
            match self.arrange_nodes(i1, i2, d1, child, Ghost(maxlen)) {
                Ok(()) => {
                    proof {
                        let a = 1 + rest_len(recs, spos as int, i1 as int, depth as int) - (i1 - spos);
                        let c = rest_len(recs, i1 as int, i2 as int, d1 as int);
                        assert(blk * a + blk * c == blk * (a + c)) by (nonlinear_arith);
                    }
                },
                Err(e) => {
                    proof {
                        let a = 1 + rest_len(recs, spos as int, i1 as int, depth as int) - (i1 - spos);
                        let c = rest_len(recs, i1 as int, i2 as int, d1 as int);
                        assert(blk * a + blk * c == blk * (a + c)) by (nonlinear_arith);
                        assert(a + c <= total);
                        assert(blk * (a + c) <= blk * total) by (nonlinear_arith)
                            requires a + c <= total, blk >= 0;
                    }
                    return Err(e);
                },
            }
            proof {
                let post = self.nodes@;
                assert(forall|j: int| 0 <= j < old(self).nodes@.len() && !is_free(old(self).nodes@, j) ==> !is_free(pre, j));
                assert forall|i: int| i1 <= i < i2 implies (base ^ #[trigger] label_of(m, recs[i].key@, depth as int)) as int == cidx by {
                    assert(recs[i].key@.len() > depth);
                    assert(recs[i].key@[depth as int] == c1);
                }
                assert forall|k: int| #[trigger] old(self).spell@.contains_key(k) implies 0 <= k < old(self).nodes@.len() && !is_free(old(self).nodes@, k) by {
                }
                assert forall|i: int| i2 <= i < epos implies ((base ^ #[trigger] label_of(m, recs[i].key@, depth as int)) as int) < pre.len() by {
                }
                assert forall|i: int| i2 <= i < epos implies (base ^ #[trigger] label_of(m, recs[i].key@, depth as int)) as int != cidx by {
                    lemma_chars_sorted(recs, spos as int, epos as int, depth as int, i2 as int, i);
                    lemma_chars_sorted(recs, spos as int, epos as int, depth as int, (i2 - 1) as int, i2 as int);
                    lemma_char_range(recs[i].key@[depth as int]);
                    lemma_char_range(recs[i2 as int].key@[depth as int]);
                    assert(recs[(i2 - 1) as int].key@[depth as int] == c1);
                    let li = label_of(m, recs[i].key@, depth as int);
                    assert(li != code);
                    lemma_xor_injective(base, li, code);
                }
                assert forall|i: int| i2 <= i < epos implies !is_free(pre, (base ^ #[trigger] label_of(m, recs[i].key@, depth as int)) as int) by {
                    let ci = (base ^ label_of(m, recs[i].key@, depth as int)) as int;
                    assert(pre[ci] == snap[ci]);
                    let cc = snap[ci].check;
                    lemma_bits(node_idx);
                }
                lemma_child_step(pre_b, *self, pre_b.spell@.insert(cidx, (i1 as int, (depth + 1) as int)), old(self).nodes@, old(self).spell@, base,
                    node_idx as int, m, recs, mp, depth as int, i1 as int, i2 as int, epos as int, cidx);
                assert(forall|j: int| 0 <= j < snap.len() && !is_free(snap, j) ==> !is_free(pre, j));
                lemma_char_range(c1);
                // Nodes fixed before this child's arrangement and other than the child are unchanged.
                assert(cidx >= old(self).nodes@.len() || is_free(old(self).nodes@, cidx));
                assert forall|j: int| 0 <= j < old(self).nodes@.len() && !is_free(old(self).nodes@, j) && j != node_idx
                    implies #[trigger] post[j] == old(self).nodes@[j] by {
                    assert(pre[j] == old(self).nodes@[j]);
                    assert(!is_free(pre, j));
                }
                assert(!is_free(pre, node_idx as int));
                assert(post[node_idx as int] == pre[node_idx as int]);
                assert forall|i: int| i2 <= i < epos implies #[trigger] post[(base ^ label_of(m, recs[i].key@, depth as int)) as int]
                    == snap[(base ^ label_of(m, recs[i].key@, depth as int)) as int] by {
                    lemma_chars_sorted(recs, spos as int, epos as int, depth as int, i2 as int, i);
                    lemma_chars_sorted(recs, spos as int, epos as int, depth as int, (i2 - 1) as int, i2 as int);
                    lemma_char_range(recs[i].key@[depth as int]);
                    lemma_char_range(recs[i2 as int].key@[depth as int]);
                    let li = label_of(m, recs[i].key@, depth as int);
                    assert(recs[(i2 - 1) as int].key@[depth as int] == c1);
                    assert(recs[i].key@[depth as int] != c1);
                    assert(li != code);
                    lemma_xor_injective(base, li, code);
                    let ci = (base ^ li) as int;
                    assert(pre[ci] == snap[ci]);
                    assert(!is_free(pre, ci)) by {
                        let c = snap[ci].check;
                        assert(c == node_idx);
                    }
                }
                assert forall|i: int, j: int| i1 <= i < i2 && #[trigger] on_path(m, post, node_idx, recs[i].key@.skip(depth as int), j)
                    implies 0 <= j < post.len() && !is_free(post, j) && (j >= old(self).nodes@.len() || is_free(old(self).nodes@, j))
                    && (j == (base ^ label_of(m, recs[i].key@, depth as int)) as int || j >= snap.len() || is_free(snap, j)) by {
                    let key = recs[i].key@.skip(depth as int);
                    assert(key[0] == c1);
                    assert(key.skip(1) =~= recs[i].key@.skip(d1 as int));
                    assert(m.spec_get(key[0]) == Some(code));
                    assert(child_of(post, node_idx, code) == Some(child));
                    if j != cidx {
                        assert(on_path(m, post, child, recs[i].key@.skip(d1 as int), j));
                        if j < old(self).nodes@.len() && !is_free(old(self).nodes@, j) {
                            assert(!is_free(pre, j));
                        }
                        if j < snap.len() && !is_free(snap, j) {
                            assert(!is_free(pre, j));
                        }
                    } else {
                        assert(!is_free(pre, cidx));
                    }
                }
                if !mp {
                    assert forall|i: int| i1 <= i < i2 implies #[trigger] arr_lookup(m, post, node_idx, recs[i].key@.skip(depth as int))
                        == Some(recs[i].value) by {
                        let key = recs[i].key@.skip(depth as int);
                        assert(key[0] == c1);
                        assert(key.skip(1) =~= recs[i].key@.skip(d1 as int));
                        assert(m.spec_get(key[0]) == Some(code));
                        assert(post[node_idx as int] == snap[node_idx as int]);
                        assert(post[cidx].check == node_idx);
                        assert(child_of(post, node_idx, code) == Some(child));
                        assert(arr_lookup(m, post, child, recs[i].key@.skip(d1 as int)) == Some(recs[i].value));
                    }
                    assert forall|i: int| spos <= i < i1 implies #[trigger] arr_lookup(m, post, node_idx, recs[i].key@.skip(depth as int))
                        == Some(recs[i].value) && (forall|j: int| #[trigger] on_path(m, post, node_idx, recs[i].key@.skip(depth as int), j)
                        ==> 0 <= j < post.len() && !is_free(post, j) && (j >= old(self).nodes@.len() || is_free(old(self).nodes@, j))
                        && (j == (base ^ label_of(m, recs[i].key@, depth as int)) as int || j >= snap.len() || is_free(snap, j))) by {
                        let key = recs[i].key@.skip(depth as int);
                        assert(arr_lookup(m, pre, node_idx, key) == Some(recs[i].value));
                        let li = label_of(m, recs[i].key@, depth as int);
                        lemma_char_range(recs[i].key@[depth as int]);
                        assert((recs[i].key@[depth as int] as u32) < (recs[i1 as int].key@[depth as int] as u32));
                        assert(recs[i].key@[depth as int] != c1);
                        assert(li != code);
                        lemma_xor_injective(base, li, code);
                        assert forall|j: int| on_path(m, pre, node_idx, key, j) implies j < post.len() && same_shape(pre[j], post[j]) by {
                            assert(0 <= j < pre.len() && !is_free(pre, j));
                            assert(j != cidx);
                            assert(post[j] == pre[j]);
                        }
                        lemma_arr_lookup_frame(m, pre, post, node_idx, key);
                        assert forall|j: int| on_path(m, post, node_idx, key, j)
                            implies 0 <= j < post.len() && !is_free(post, j) && (j >= old(self).nodes@.len() || is_free(old(self).nodes@, j))
                            && (j == (base ^ li) as int || j >= snap.len() || is_free(snap, j)) by {
                            assert(on_path(m, pre, node_idx, key, j));
                            assert(!is_free(pre, j));
                        }
                    }
                    assert forall|i: int, j: int| spos <= i < i2 && #[trigger] on_path(m, post, node_idx, recs[i].key@.skip(depth as int), j)
                        implies 0 <= j < post.len() && !is_free(post, j) && (j >= old(self).nodes@.len() || is_free(old(self).nodes@, j))
                        && (j == (base ^ label_of(m, recs[i].key@, depth as int)) as int || j >= snap.len() || is_free(snap, j)) by {
                        if i < i1 {
                            assert(arr_lookup(m, post, node_idx, recs[i].key@.skip(depth as int)) == Some(recs[i].value));
                        }
                    }
                } else {
                    assert forall|i: int| i1 <= i < i2 implies #[trigger] mp_found(m, post, self.suffixes@, node_idx, recs[i].key@.skip(depth as int), recs[i].value) by {
                        let key = recs[i].key@.skip(depth as int);
                        assert(key[0] == c1);
                        assert(key.skip(1) =~= recs[i].key@.skip(d1 as int));
                        assert(m.spec_get(key[0]) == Some(code));
                        assert(post[node_idx as int] == snap[node_idx as int]);
                        assert(post[cidx].check == node_idx);
                        assert(child_of(post, node_idx, code) == Some(child));
                        assert(mp_found(m, post, self.suffixes@, child, recs[i].key@.skip(d1 as int), recs[i].value));
                        let p = mp_path(m, post, child, recs[i].key@.skip(d1 as int))->Some_0;
                        assert(mp_path(m, post, node_idx, key) == Some((p.0, p.1 + 1)));
                        assert(key.skip((p.1 + 1) as int) =~= recs[i].key@.skip(d1 as int).skip(p.1 as int));
                    }
                    assert forall|i: int| spos <= i < i1 implies #[trigger] mp_found(m, post, self.suffixes@, node_idx, recs[i].key@.skip(depth as int), recs[i].value)
                        && (forall|j: int| #[trigger] on_path(m, post, node_idx, recs[i].key@.skip(depth as int), j)
                        ==> 0 <= j < post.len() && !is_free(post, j) && (j >= old(self).nodes@.len() || is_free(old(self).nodes@, j))
                        && (j == (base ^ label_of(m, recs[i].key@, depth as int)) as int || j >= snap.len() || is_free(snap, j))) by {
                        let key = recs[i].key@.skip(depth as int);
                        assert(mp_found(m, pre, pre_sufs, node_idx, key, recs[i].value));
                        let li = label_of(m, recs[i].key@, depth as int);
                        lemma_char_range(recs[i].key@[depth as int]);
                        assert((recs[i].key@[depth as int] as u32) < (recs[i1 as int].key@[depth as int] as u32));
                        assert(recs[i].key@[depth as int] != c1);
                        assert(li != code);
                        lemma_xor_injective(base, li, code);
                        assert forall|j: int| on_path(m, pre, node_idx, key, j) implies j < post.len() && same_shape(pre[j], post[j]) by {
                            assert(0 <= j < pre.len() && !is_free(pre, j));
                            assert(j != cidx);
                            assert(post[j] == pre[j]);
                        }
                        lemma_mp_path_frame(m, pre, post, node_idx, key);
                        let p = mp_path(m, pre, node_idx, key)->Some_0;
                        lemma_mp_leaf_on_path(m, pre, node_idx, key);
                        assert(on_path(m, pre, node_idx, key, p.0 as int));
                        assert(post[p.0 as int] == pre[p.0 as int]);
                        let sidx = pre[p.0 as int].get_base() as int;
                        assert(self.suffixes@[sidx] == pre_sufs[sidx]);
                        assert forall|j: int| on_path(m, post, node_idx, key, j)
                            implies 0 <= j < post.len() && !is_free(post, j) && (j >= old(self).nodes@.len() || is_free(old(self).nodes@, j))
                            && (j == (base ^ li) as int || j >= snap.len() || is_free(snap, j)) by {
                            assert(on_path(m, pre, node_idx, key, j));
                            assert(!is_free(pre, j));
                        }
                    }
                    assert forall|i: int, j: int| spos <= i < i2 && #[trigger] on_path(m, post, node_idx, recs[i].key@.skip(depth as int), j)
                        implies 0 <= j < post.len() && !is_free(post, j) && (j >= old(self).nodes@.len() || is_free(old(self).nodes@, j))
                        && (j == (base ^ label_of(m, recs[i].key@, depth as int)) as int || j >= snap.len() || is_free(snap, j)) by {
                        if i < i1 {
                            assert(mp_found(m, post, self.suffixes@, node_idx, recs[i].key@.skip(depth as int), recs[i].value));
                        }
                    }
                }
                if i2 < epos {
                    assert forall|i: int| spos <= i < i2 implies (#[trigger] recs[i].key@[depth as int] as u32) < (recs[i2 as int].key@[depth as int] as u32) by {
                        lemma_chars_sorted(recs, spos as int, epos as int, depth as int, i, (i2 - 1) as int);
                        lemma_chars_sorted(recs, spos as int, epos as int, depth as int, (i2 - 1) as int, i2 as int);
                        lemma_char_range(recs[i2 as int].key@[depth as int]);
                        lemma_char_range(c1);
                    }
                }
            }
            i1 = i2;
        }
        proof {
            assert(blk * (1 + total - (epos - spos)) <= blk * total) by (nonlinear_arith)
                requires epos - spos >= 1, blk >= 0;
        }
        Ok(())
    }

    /// Builds the array from sorted keys; the key at position `i` gets value
    /// `i`.
    pub fn build_from_keys(self, keys: &[&str]) -> (r: Result<Self, CrawdadError>)
        requires
            self.suffixes@.len() == 0,
        ensures
            keys@.len() > 0x8000_0000 ==> r == Err::<Self, CrawdadError>(
                CrawdadError::Scale(ScaleError { arg: "input value", max: OFFSET_MASK }),
            ),
            keys@.len() <= 0x8000_0000 ==> Self::built(
                r,
                self.minimal_prefix,
                list_keys(keys@),
                index_values(keys@.len()),
            ),
    {
        if keys.len() > 0x8000_0000 {
            return Err(CrawdadError::scale("input value", crate::MAX_VALUE));
        }
        let recs = records_from_keys(keys);
        let mut b = self;
        b.records = recs;
        match b.build() {
            Ok(()) => Ok(b),
            Err(e) => Err(e),
        }
    }

    /// Builds the array from sorted key-value records.
    pub fn build_from_records(self, records: &[(&str, u32)]) -> (r: Result<Self, CrawdadError>)
        requires
            self.suffixes@.len() == 0,
        ensures
            Self::built(r, self.minimal_prefix, str_keys(records@), str_values(records@)),
    {
        let recs = records_from_pairs(records);
        let mut b = self;
        b.records = recs;
        match b.build() {
            Ok(()) => Ok(b),
            Err(e) => Err(e),
        }
    }

    /// What building from keys `keys` with values `values` gives: the error
    /// of the first check that fails; otherwise a finished array, unless the
    /// number of nodes passes its limit.
    pub open spec fn built(r: Result<Self, CrawdadError>, minimal_prefix: bool, keys: Seq<Seq<char>>, values: Seq<u32>) -> bool {
        &&& input_error(keys, values) matches Some(e) ==> r == Err::<Self, CrawdadError>(e)
        &&& input_error(keys, values) is None ==> (r is Ok || r == Err::<Self, CrawdadError>(
            CrawdadError::Scale(ScaleError { arg: "num_nodes", max: OFFSET_MASK }),
        ))
        &&& input_error(keys, values) is None && 1 + key_total(keys) <= 0x7fff ==> r is Ok
        &&& input_error(keys, values) is None && r is Err ==> block_len_for(kinds(keys)) * (1 + key_total(keys)) > 0x7fff_ffff
        &&& r matches Ok(b) ==> {
            &&& b.minimal_prefix == minimal_prefix
            &&& maps_keys(b.mapper, keys)
            &&& 0 < b.nodes@.len() <= 0x7fff_ffff
            &&& end_flags_ok(b.nodes@)
            &&& b.records_ok()
            &&& 1 <= b.mapper.alphabet_size <= 0xffff
            &&& b.block_len >= b.mapper.alphabet_size
            &&& prefix_free(b.records@, keys)
            &&& values_of(b.records@) == values
            &&& b.nodes@[0].get_check() == 0x7fff_ffff
            &&& b.suffixes@.len() <= b.records@.len()
            &&& forall|k: int| 0 <= k < b.suffixes@.len() ==> (#[trigger] b.suffixes@[k]).key@.len() <= max_plain_len(b.records@)
            &&& b.records@.len() <= key_total(keys)
            &&& b.mapper.table@.len() <= 0x11_0000
            &&& b.spell@.contains_key(0) && b.spell@[0] == (0int, 0int)
            &&& finished(minimal_prefix, b.records@, b.suffixes@, b.nodes@, b.spell@, 0)
            &&& forall|j: int| 0 <= j < b.nodes@.len() && !(#[trigger] b.nodes@[j]).is_vacant() ==> b.spell@.contains_key(j) && finished(
                minimal_prefix,
                b.records@,
                b.suffixes@,
                b.nodes@,
                b.spell@,
                j,
            ) && (j > 0 ==> linked(b.mapper, b.records@, b.nodes@, b.spell@, j))
            &&& forall|p: int| 0 <= p < b.nodes@.len() && #[trigger] b.nodes@[p].has_leaf() ==> {
                let e = (b.nodes@[p].base ^ 0) as int;
                &&& e < b.nodes@.len()
                &&& b.nodes@[e].get_check() == p
                &&& !b.nodes@[p].is_leaf()
            }
            &&& (!minimal_prefix ==> forall|i: int| 0 <= i < b.records@.len() ==> #[trigger] arr_lookup(
                b.mapper,
                b.nodes@,
                0,
                b.records@[i].key@,
            ) == Some(b.records@[i].value))
            &&& (minimal_prefix ==> forall|i: int| 0 <= i < b.records@.len() ==> #[trigger] mp_found(
                b.mapper,
                b.nodes@,
                b.suffixes@,
                0,
                b.records@[i].key@,
                b.records@[i].value,
            ))
        }
    }

    /// Releases the standard trie; fails when the minimal-prefix form is
    /// enabled.
    pub fn release_trie(self) -> (r: Result<crate::trie::Trie, CrawdadError>)
        ensures
            self.minimal_prefix <==> r is Err,
            r is Err ==> r == Err::<crate::trie::Trie, CrawdadError>(
                CrawdadError::Setup(crate::errors::SetupError { msg: "minimal_prefix must be disabled." }),
            ),
            r matches Ok(t) ==> t.mapper == self.mapper && t.nodes@ == self.nodes@,
    {
        if self.minimal_prefix {
            Err(CrawdadError::setup("minimal_prefix must be disabled."))
        } else {
            Ok(crate::trie::Trie { mapper: self.mapper, nodes: self.nodes })
        }
    }

    /// Releases the minimal-prefix trie: each suffix's remaining characters
    /// and value go to a record of the tail pool, in the order of the
    /// suffixes; a leaf reached through the end marker keeps its value
    /// itself. Fails when the minimal-prefix form is disabled, when a suffix
    /// is longer than 255 characters, or when the pool would pass
    /// `OFFSET_MASK` bytes.
    #[verifier::rlimit(100)]
    #[verifier::spinoff_prover]
    pub fn release_mptrie(self) -> (r: Result<crate::mptrie::MpTrie, CrawdadError>)
        requires
            self.minimal_prefix ==> self.records_ok() && 1 <= self.mapper.alphabet_size,
            self.minimal_prefix ==> forall|c: char| #[trigger] self.mapper.spec_get(c) is Some ==> self.mapper.spec_get(c)->Some_0
                < self.mapper.alphabet_size,
        ensures
            !self.minimal_prefix <==> r is Err && r->Err_0 is Setup,
            !self.minimal_prefix ==> r == Err::<crate::mptrie::MpTrie, CrawdadError>(
                CrawdadError::Setup(crate::errors::SetupError { msg: "minimal_prefix must be enabled." }),
            ),
            self.minimal_prefix && (exists|k: int| 0 <= k < self.suffixes@.len() && (#[trigger] self.suffixes@[k]).key@.len() > 0xff)
                ==> r == Err::<crate::mptrie::MpTrie, CrawdadError>(CrawdadError::Scale(ScaleError { arg: "suffix length", max: 0xff })),
            self.minimal_prefix && (forall|k: int| 0 <= k < self.suffixes@.len() ==> (#[trigger] self.suffixes@[k]).key@.len() <= 0xff)
                && self.tails_needed() > 0x7fff_ffff ==> r == Err::<crate::mptrie::MpTrie, CrawdadError>(
                CrawdadError::Scale(ScaleError { arg: "tails", max: OFFSET_MASK }),
            ),
            self.minimal_prefix && (forall|k: int| 0 <= k < self.suffixes@.len() ==> (#[trigger] self.suffixes@[k]).key@.len() <= 0xff)
                && self.tails_needed() <= 0x7fff_ffff ==> r is Ok,
            r matches Ok(t) ==> {
                &&& t.mapper == self.mapper
                &&& t.code_size == byte_width((self.mapper.alphabet_size - 1) as u32)
                &&& t.value_size == byte_width(max_value_of(self.suffixes@))
                &&& t.tails@.len() == self.tails_needed()
                &&& t.tails@.len() <= 0x7fff_ffff
                &&& crate::mptrie::keeps_structure(self.nodes@, t.nodes@)
                &&& forall|k: int| 0 <= k < self.suffixes@.len() && #[trigger] rec_applies(self.nodes@, self.suffixes@, k) ==> {
                    let j = self.suffixes@[k].node as int;
                    &&& end_leaf(self.nodes@, j) ==> t.nodes@[j].get_base() == self.suffixes@[k].value
                    &&& !end_leaf(self.nodes@, j) ==> t.tail_value(t.nodes@[j].get_base(), self.suffixes@[k].key@) == Some(self.suffixes@[k].value)
                }
            },
    {
        if !self.minimal_prefix {
            return Err(CrawdadError::setup("minimal_prefix must be enabled."));
        }
        let ghost orig = self.nodes@;
        let ghost sufs = self.suffixes@;
        let mut k: usize = 0;
        while k < self.suffixes.len()
            invariant
                k <= self.suffixes@.len(),
                self.minimal_prefix,
                forall|x: int| 0 <= x < k ==> (#[trigger] self.suffixes@[x]).key@.len() <= 0xff,
            decreases self.suffixes@.len() - k,
        {
            if self.suffixes[k].key.len() > 0xff {
                assert(self.suffixes@[k as int].key@.len() > 0xff);
                return Err(CrawdadError::scale("suffix length", 0xff));
            }
            k = k + 1;
        }
        let max_code = self.mapper.alphabet_size() - 1;
        let code_size = crate::bytes::pack_size(max_code);
        let max_value = max_suffix_value(&self.suffixes);
        let value_size = crate::bytes::pack_size(max_value);
        let n = self.nodes.len();
        let mut total: usize = 0;
        let mut k: usize = 0;
        while k < self.suffixes.len()
            invariant
                k <= self.suffixes@.len(),
                self.minimal_prefix,
                n == self.nodes@.len(),
                1 <= code_size <= 4,
                1 <= value_size <= 4,
                code_size == byte_width(max_code),
                value_size == byte_width(max_value),
                max_code == self.mapper.alphabet_size - 1,
                max_value == max_value_of(self.suffixes@),
                forall|x: int| 0 <= x < self.suffixes@.len() ==> (#[trigger] self.suffixes@[x]).key@.len() <= 0xff,
                total == tails_need(self.nodes@, self.suffixes@, code_size, value_size, k as int),
                total <= 0x7fff_ffff,
            decreases self.suffixes@.len() - k,
        {
            let j = self.suffixes[k].node as usize;
            if self.record_applies(k) && !self.is_end_leaf(j) {
                let add = 1 + self.suffixes[k].key.len() * (code_size as usize) + (value_size as usize);
                assert(self.suffixes@[k as int].key@.len() * (code_size as int) <= 0xff * 4) by (nonlinear_arith)
                    requires self.suffixes@[k as int].key@.len() <= 0xff, code_size <= 4;
                total = total + add;
                if total > OFFSET_MASK as usize {
                    proof {
                        lemma_tails_need_grows(self.nodes@, self.suffixes@, code_size, value_size, (k + 1) as int, self.suffixes@.len() as int);
                    }
                    return Err(CrawdadError::scale("tails", OFFSET_MASK));
                }
            }
            k = k + 1;
        }
        let mapper = self.mapper;
        let mut nodes = self.nodes;
        let suffixes = self.suffixes;
        let mut done: Vec<bool> = vec![false; n];
        let mut tails: Vec<u8> = Vec::new();
        let mut k: usize = 0;
        while k < suffixes.len()
            invariant
                k <= suffixes@.len(),
                sufs == suffixes@,
                nodes@.len() == n,
                done@.len() == n,
                n == orig.len(),
                mapper == self.mapper,
                1 <= code_size <= 4,
                1 <= value_size <= 4,
                total == tails_need(orig, sufs, code_size, value_size, sufs.len() as int),
                total <= 0x7fff_ffff,
                tails@.len() == tails_need(orig, sufs, code_size, value_size, k as int),
                forall|x: int| 0 <= x < sufs.len() ==> (#[trigger] sufs[x]).key@.len() <= 0xff,
                forall|x: int| 0 <= x < sufs.len() ==> coded(mapper, #[trigger] sufs[x].key@, self.block_len),
                forall|x: int| 0 <= x < sufs.len() ==> #[trigger] sufs[x].value <= 0x7fff_ffff,
                forall|j: int| 0 <= j < n && !done@[j] ==> #[trigger] nodes@[j] == orig[j],
                forall|j: int| 0 <= j < n && done@[j] ==> orig[j].is_leaf() && (orig[j].get_base() as int) < k,
                forall|j: int| 0 <= j < n && (!orig[j].is_leaf() || orig[j].is_vacant()) ==> #[trigger] nodes@[j] == orig[j],
                forall|j: int| 0 <= j < n && orig[j].is_leaf() && !orig[j].is_vacant() ==> #[trigger] nodes@[j].is_leaf() && nodes@[j].check == orig[j].check,
                forall|x: int| 0 <= x < k && #[trigger] rec_applies(orig, sufs, x) ==> {
                    let j = sufs[x].node as int;
                    let key = sufs[x].key@;
                    let pos = nodes@[j].get_base() as int;
                    &&& done@[j]
                    &&& end_leaf(orig, j) ==> nodes@[j].get_base() == sufs[x].value
                    &&& !end_leaf(orig, j) ==> {
                        &&& pos + 1 + key.len() * (code_size as int) + (value_size as int) <= tails@.len()
                        &&& tails@.subrange(pos, pos + 1 + key.len() * (code_size as int) + (value_size as int)) == tail_record(
                            mapper,
                            key,
                            sufs[x].value,
                            code_size,
                            value_size,
                        )
                    }
                },
            decreases suffixes@.len() - k,
        {
            let j = suffixes[k].node as usize;
            let ghost before_nodes = nodes@;
            let ghost before_tails = tails@;
            let ghost before_done = done@;
            proof {
                lemma_tails_need_grows(orig, sufs, code_size, value_size, k as int, sufs.len() as int);
                lemma_tails_need_grows(orig, sufs, code_size, value_size, (k + 1) as int, sufs.len() as int);
            }
            if j < n && !done[j] && nodes[j].is_leaf() && !nodes[j].is_vacant() && nodes[j].get_base() as usize == k {
                let nd = nodes[j];
                let parent = nd.get_check() as usize;
                let value = suffixes[k].value;
                proof {
                    lemma_set_flag(value);
                    assert(rec_applies(orig, sufs, k as int));
                }
                let end = parent < n && !nodes[parent].is_leaf() && nodes[parent].has_leaf() && nodes[parent].base == j as u32;
                proof {
                    let p = orig[j as int].get_check() as int;
                    if p < n as int {
                        if !orig[p].is_leaf() {
                            assert(nodes@[p] == orig[p]);
                        } else if !orig[p].is_vacant() {
                            assert(nodes@[p].is_leaf());
                        }
                    }
                    assert(end == end_leaf(orig, j as int));
                }
                done.set(j, true);
                if end {
                    nodes.set(j, Node { base: value | 0x8000_0000, check: nd.check });
                    assert(nodes@[j as int].is_leaf() && nodes@[j as int].check == orig[j as int].check);
                } else {
                    let pos = tails.len() as u32;
                    proof {
                        lemma_set_flag(pos);
                    }
                    nodes.set(j, Node { base: pos | 0x8000_0000, check: nd.check });
                    assert(nodes@[j as int].is_leaf() && nodes@[j as int].check == orig[j as int].check);
                    append_tail(&mut tails, &mapper, &suffixes[k].key, value, code_size, value_size, Ghost(self.block_len));
                    proof {
                        lemma_encode_tail_codes_len(mapper, sufs[k as int].key@, code_size);
                    }
                }
                proof {
                    assert forall|x: int| 0 <= x < k + 1 && #[trigger] rec_applies(orig, sufs, x) implies ({
                        let jj = sufs[x].node as int;
                        let key = sufs[x].key@;
                        let pos = nodes@[jj].get_base() as int;
                        &&& done@[jj]
                        &&& end_leaf(orig, jj) ==> nodes@[jj].get_base() == sufs[x].value
                        &&& !end_leaf(orig, jj) ==> {
                            &&& pos + 1 + key.len() * (code_size as int) + (value_size as int) <= tails@.len()
                            &&& tails@.subrange(pos, pos + 1 + key.len() * (code_size as int) + (value_size as int)) == tail_record(
                                mapper,
                                key,
                                sufs[x].value,
                                code_size,
                                value_size,
                            )
                        }
                    }) by {
                        if x < k {
                            let jj = sufs[x].node as int;
                            assert(jj != j);
                            assert(nodes@[jj] == before_nodes[jj]);
                            if !end_leaf(orig, jj) {
                                let key = sufs[x].key@;
                                let pj = before_nodes[jj].get_base() as int;
                                let lj = 1 + key.len() * (code_size as int) + (value_size as int);
                                assert(tails@.subrange(pj, pj + lj) =~= before_tails.subrange(pj, pj + lj));
                            }
                        } else if !end {
                            let rec = tail_record(mapper, sufs[k as int].key@, value, code_size, value_size);
                            assert(tails@.subrange(before_tails.len() as int, before_tails.len() + (rec.len() as int)) =~= rec);
                        }
                    }
                }
            } else {
                proof {
                    if rec_applies(orig, sufs, k as int) {
                        assert(!done@[j as int]);
                        assert(nodes@[j as int] == orig[j as int]);
                    }
                }
            }
            proof {
                assert forall|jj: int| 0 <= jj < n && orig[jj].is_leaf() && !orig[jj].is_vacant() implies #[trigger] nodes@[jj].is_leaf()
                    && nodes@[jj].check == orig[jj].check by {
                    if jj != j || nodes@[jj] == before_nodes[jj] {
                        assert(nodes@[jj] == before_nodes[jj]);
                        assert(before_nodes[jj].is_leaf());
                    }
                }
            }
            k = k + 1;
        }
        let t = crate::mptrie::MpTrie { mapper, nodes, tails, code_size, value_size };
        proof {
            assert forall|x: int| 0 <= x < sufs.len() && #[trigger] rec_applies(orig, sufs, x) implies ({
                let j = sufs[x].node as int;
                &&& end_leaf(orig, j) ==> t.nodes@[j].get_base() == sufs[x].value
                &&& !end_leaf(orig, j) ==> t.tail_value(t.nodes@[j].get_base(), sufs[x].key@) == Some(sufs[x].value)
            }) by {
                let j = sufs[x].node as int;
                if !end_leaf(orig, j) {
                    let key = sufs[x].key@;
                    assert(coded(mapper, key, self.block_len));
                    assert forall|i: int| 0 <= i < key.len() implies (#[trigger] t.mapper.spec_get(key[i])) is Some && (t.mapper.spec_get(key[i])->Some_0 as nat)
                        < crate::bytes::scale(t.code_size as nat) by {
                        assert(mapper.spec_get(key[i]) is Some);
                        assert(mapper.spec_get(key[i])->Some_0 < mapper.alphabet_size);
                    }
                    assert(sufs[x].value <= max_value);
                    lemma_tail_decode(t, t.nodes@[j].get_base() as int, key, sufs[x].value);
                }
            }
        }
        Ok(t)
    }

    /// Bytes that the tail pool needs for the suffixes.
    pub open spec fn tails_needed(&self) -> int {
        tails_need(
            self.nodes@,
            self.suffixes@,
            byte_width((self.mapper.alphabet_size - 1) as u32),
            byte_width(max_value_of(self.suffixes@)),
            self.suffixes@.len() as int,
        )
    }

    /// Tells whether suffix `k` is the one its leaf holds.
    fn record_applies(&self, k: usize) -> (r: bool)
        requires
            k < self.suffixes@.len(),
        ensures
            r == rec_applies(self.nodes@, self.suffixes@, k as int),
    {
        let j = self.suffixes[k].node as usize;
        j < self.nodes.len() && self.nodes[j].is_leaf() && !self.nodes[j].is_vacant() && self.nodes[j].get_base() as usize == k
    }

    /// Tells whether leaf `j` hangs from its parent through the end marker.
    fn is_end_leaf(&self, j: usize) -> (r: bool)
        requires
            j < self.nodes@.len(),
        ensures
            r == end_leaf(self.nodes@, j as int),
    {
        let parent = self.nodes[j].get_check() as usize;
        parent < self.nodes.len() && !self.nodes[parent].is_leaf() && self.nodes[parent].has_leaf() && self.nodes[parent].base == j as u32
    }

    /// Marks the free nodes vacant, marks the root, and flags each internal
    /// node whose end-marker child exists.
    fn finish(&mut self)
        requires
            0 < old(self).nodes@.len() <= 0x7fff_ffff,
        ensures
            final(self).nodes@.len() == old(self).nodes@.len(),
            end_flags_ok(final(self).nodes@),
            final(self).same_setup(old(self)),
            final(self).suffixes@ == old(self).suffixes@,
            forall|j: int| 0 < j < old(self).nodes@.len() && !is_free(old(self).nodes@, j) ==> same_shape(
                old(self).nodes@[j],
                #[trigger] final(self).nodes@[j],
            ),
            final(self).nodes@[0].base == old(self).nodes@[0].base,
            final(self).nodes@[0].get_check() == 0x7fff_ffff,
            forall|j: int| 0 < j < old(self).nodes@.len() && #[trigger] is_free(old(self).nodes@, j) ==> final(self).nodes@[j].is_vacant(),
            forall|p: int| 0 <= p < final(self).nodes@.len() && #[trigger] final(self).nodes@[p].has_leaf() ==> {
                let e = (final(self).nodes@[p].base ^ 0) as int;
                &&& e < final(self).nodes@.len()
                &&& final(self).nodes@[e].get_check() == p
                &&& !final(self).nodes@[p].is_leaf()
            },
    {
        let ghost start = self.nodes@;
        self.mark_vacants();
        let ghost mid = self.nodes@;
        self.flag_end_children();
        proof {
            assert forall|j: int| 0 < j < start.len() && !is_free(start, j) implies same_shape(start[j], #[trigger] self.nodes@[j]) by {
                assert(mid[j] == start[j]);
                assert(same_shape(mid[j], self.nodes@[j]));
            }
            assert(same_shape(mid[0], self.nodes@[0]));
            lemma_constants();
            assert forall|j: int| 0 < j < start.len() && #[trigger] is_free(start, j) implies self.nodes@[j].is_vacant() by {
                assert(mid[j] == (Node { base: 0x7fff_ffff, check: 0x7fff_ffff }));
                assert(mid[j].is_vacant());
            }
        }
    }

    /// Marks the root and turns every free node into a vacant one.
    fn mark_vacants(&mut self)
        requires
            0 < old(self).nodes@.len() <= 0x7fff_ffff,
        ensures
            final(self).nodes@.len() == old(self).nodes@.len(),
            forall|j: int| 0 <= j < final(self).nodes@.len() ==> #[trigger] final(self).nodes@[j].check & 0x8000_0000 == 0,
            final(self).same_setup(old(self)),
            final(self).suffixes@ == old(self).suffixes@,
            forall|j: int| 0 < j < old(self).nodes@.len() && !is_free(old(self).nodes@, j) ==> #[trigger] final(self).nodes@[j] == old(self).nodes@[j],
            final(self).nodes@[0].base == old(self).nodes@[0].base,
            final(self).nodes@[0].check == 0x7fff_ffff,
            forall|j: int| 0 < j < old(self).nodes@.len() && is_free(old(self).nodes@, j) ==> #[trigger] final(self).nodes@[j]
                == (Node { base: 0x7fff_ffff, check: 0x7fff_ffff }),
    {
        let n = self.nodes.len();
        let nd0 = self.nodes[0];
        self.nodes.set(0, Node { base: nd0.base, check: OFFSET_MASK });
        proof { lemma_constants(); }
        let mut i: usize = 0;
        while i < n
            invariant
                self.nodes@.len() == n,
                n <= 0x7fff_ffff,
                n == old(self).nodes@.len(),
                self.same_setup(old(self)),
                self.suffixes@ == old(self).suffixes@,
                forall|j: int| 0 <= j < i ==> #[trigger] self.nodes@[j].check & 0x8000_0000 == 0,
                forall|j: int| 0 < j < n && !is_free(old(self).nodes@, j) ==> #[trigger] self.nodes@[j] == old(self).nodes@[j],
                self.nodes@[0].base == old(self).nodes@[0].base,
                self.nodes@[0].check & 0x8000_0000 == 0,
                self.nodes@[0].check == 0x7fff_ffff,
                forall|j: int| i <= j < n && j > 0 ==> #[trigger] self.nodes@[j] == old(self).nodes@[j],
                forall|j: int| 0 < j < i && is_free(old(self).nodes@, j) ==> #[trigger] self.nodes@[j]
                    == (Node { base: 0x7fff_ffff, check: 0x7fff_ffff }),
            decreases n - i,
        {
            if self.nodes[i].check & 0x8000_0000 != 0 {
                self.nodes.set(i, Node { base: OFFSET_MASK, check: OFFSET_MASK });
                proof { lemma_constants(); }
            }
            i = i + 1;
        }
    }

    /// Flags each internal node whose end-marker child exists.
    fn flag_end_children(&mut self)
        requires
            old(self).nodes@.len() <= 0x7fff_ffff,
            forall|j: int| 0 <= j < old(self).nodes@.len() ==> #[trigger] old(self).nodes@[j].check & 0x8000_0000 == 0,
        ensures
            final(self).nodes@.len() == old(self).nodes@.len(),
            end_flags_ok(final(self).nodes@),
            final(self).same_setup(old(self)),
            final(self).suffixes@ == old(self).suffixes@,
            forall|j: int| 0 <= j < old(self).nodes@.len() ==> same_shape(old(self).nodes@[j], #[trigger] final(self).nodes@[j]),
            forall|j: int| 0 <= j < old(self).nodes@.len() && #[trigger] old(self).nodes@[j].is_vacant() ==> final(self).nodes@[j] == old(self).nodes@[j],
            forall|p: int| 0 <= p < final(self).nodes@.len() && #[trigger] final(self).nodes@[p].has_leaf() ==> {
                let e = (final(self).nodes@[p].base ^ 0) as int;
                &&& e < final(self).nodes@.len()
                &&& final(self).nodes@[e].get_check() == p
                &&& !final(self).nodes@[p].is_leaf()
            },
    {
        let n = self.nodes.len();
        let ghost snap = self.nodes@;
        let mut i: usize = 0;
        while i < n
            invariant
                self.nodes@.len() == n,
                snap.len() == n,
                n <= 0x7fff_ffff,
                self.same_setup(old(self)),
                self.suffixes@ == old(self).suffixes@,
                forall|j: int| 0 <= j < n ==> #[trigger] snap[j].check & 0x8000_0000 == 0,
                forall|j: int| 0 <= j < n ==> #[trigger] self.nodes@[j].base == snap[j].base,
                forall|j: int| 0 <= j < n ==> #[trigger] self.nodes@[j].get_check() == snap[j].get_check(),
                snap == old(self).nodes@,
                forall|j: int| i <= j < n ==> #[trigger] self.nodes@[j] == snap[j],
                forall|j: int| 0 <= j < i && (snap[j].is_vacant() || snap[j].is_leaf()) ==> #[trigger] self.nodes@[j] == snap[j],
                forall|p: int| 0 <= p < i ==> {
                    let nd = #[trigger] snap[p];
                    let e = (nd.base ^ 0) as int;
                    (!nd.is_vacant() && !nd.is_leaf() && e < n && snap[e].is_leaf() && snap[e].check == p) ==> self.nodes@[p].has_leaf()
                },
                forall|j: int| 0 <= j < i ==> #[trigger] self.nodes@[j] == snap[j] || self.nodes@[j] == (Node { base: snap[j].base, check: snap[j].check | 0x8000_0000 }),
                forall|p: int| 0 <= p < i && #[trigger] self.nodes@[p].has_leaf() ==> ((snap[p].base ^ 0) as int) < n && snap[(snap[p].base ^ 0) as int].check == p
                    && !snap[p].is_leaf(),
            decreases n - i,
        {
            let nd = self.nodes[i];
            if !nd.is_vacant() && !nd.is_leaf() {
                let e = nd.base ^ crate::END_CODE;
                if (e as usize) < n && self.nodes[e as usize].check == i as u32 {
                    let ghost pre = self.nodes@;
                    proof {
                        let ce = snap[e as int].check;
                        let iu = i as u32;
                        lemma_bits(ce);
                        lemma_bits(iu);
                        assert(snap[e as int].check == i);
                    }
                    self.nodes.set(i, Node { base: nd.base, check: nd.check | 0x8000_0000 });
                    proof {
                        let c = nd.check;
                        lemma_bits(c);
                        lemma_bits(c);
                        lemma_bits(c);
                    }
                }
            }
            proof {
                let p = i as int;
                let e = (snap[p].base ^ 0) as int;
                if !snap[p].is_vacant() && !snap[p].is_leaf() && e < n && snap[e].is_leaf() && snap[e].check == p {
                    assert(self.nodes@[p].has_leaf());
                }
                if self.nodes@[p] == snap[p] {
                    let c = snap[p].check;
                    lemma_bits(c);
                }
            }
            i = i + 1;
        }
        proof {
            assert forall|p: int| 0 <= p < n implies {
                let nd = #[trigger] self.nodes@[p];
                let e = (nd.base ^ 0) as int;
                (!nd.is_vacant() && !nd.is_leaf() && e < n && self.nodes@[e].is_leaf() && self.nodes@[e].get_check() == p) ==> nd.has_leaf()
            } by {
                let nd = self.nodes@[p];
                let e = (nd.base ^ 0) as int;
                if !nd.is_vacant() && !nd.is_leaf() && e < n && self.nodes@[e].is_leaf() && self.nodes@[e].get_check() == p {
                    assert(snap[p].base == nd.base);
                    if snap[p].is_vacant() {
                        assert(self.nodes@[p] == snap[p]);
                    }
                    assert(self.nodes@[e].base == snap[e].base);
                    assert(self.nodes@[e] == snap[e]);
                    let c = snap[e].check;
                    lemma_bits(c);
                }
            }
            assert forall|p: int| 0 <= p < n && #[trigger] self.nodes@[p].has_leaf() implies ({
                let e = (self.nodes@[p].base ^ 0) as int;
                &&& e < n
                &&& self.nodes@[e].get_check() == p
            }) by {
                let e = (snap[p].base ^ 0) as int;
                let c = snap[e].check;
                lemma_bits(c);
            }
        }
    }

    /// Builds the array from records: validates them, maps the characters,
    /// makes the keys prefix-free and arranges the nodes.
    #[verifier::spinoff_prover]
    fn build(&mut self) -> (r: Result<(), CrawdadError>)
        requires
            old(self).suffixes@.len() == 0,
        ensures
            input_error(keys_of(old(self).records@), values_of(old(self).records@)) matches Some(e) ==> r == Err::<(), CrawdadError>(e),
            input_error(keys_of(old(self).records@), values_of(old(self).records@)) is None ==> (r is Ok || r == Err::<(), CrawdadError>(
                CrawdadError::Scale(ScaleError { arg: "num_nodes", max: OFFSET_MASK }),
            )),
            input_error(keys_of(old(self).records@), values_of(old(self).records@)) is None && 1 + key_total(keys_of(old(self).records@))
                <= 0x7fff ==> r is Ok,
            input_error(keys_of(old(self).records@), values_of(old(self).records@)) is None && r is Err ==> block_len_for(
                kinds(keys_of(old(self).records@)),
            ) * (1 + key_total(keys_of(old(self).records@))) > 0x7fff_ffff,
            r is Ok ==> {
                &&& final(self).minimal_prefix == old(self).minimal_prefix
                &&& maps_keys(final(self).mapper, keys_of(old(self).records@))
                &&& 0 < final(self).nodes@.len() <= 0x7fff_ffff
                &&& end_flags_ok(final(self).nodes@)
                &&& final(self).records_ok()
                &&& 1 <= final(self).mapper.alphabet_size <= 0xffff
                &&& final(self).block_len >= final(self).mapper.alphabet_size
                &&& prefix_free(final(self).records@, keys_of(old(self).records@))
                &&& values_of(final(self).records@) == values_of(old(self).records@)
                &&& final(self).nodes@[0].get_check() == 0x7fff_ffff
                &&& final(self).suffixes@.len() <= final(self).records@.len()
                &&& forall|k: int| 0 <= k < final(self).suffixes@.len() ==> (#[trigger] final(self).suffixes@[k]).key@.len() <= max_plain_len(
                    final(self).records@,
                )
                &&& final(self).records@.len() <= key_total(keys_of(old(self).records@))
                &&& final(self).mapper.table@.len() <= 0x11_0000
                &&& final(self).spell@.contains_key(0) && final(self).spell@[0] == (0int, 0int)
                &&& finished(old(self).minimal_prefix, final(self).records@, final(self).suffixes@, final(self).nodes@, final(self).spell@, 0)
                &&& forall|p: int| 0 <= p < final(self).nodes@.len() && #[trigger] final(self).nodes@[p].has_leaf() ==> {
                    let e = (final(self).nodes@[p].base ^ 0) as int;
                    &&& e < final(self).nodes@.len()
                    &&& final(self).nodes@[e].get_check() == p
                    &&& !final(self).nodes@[p].is_leaf()
                }
                &&& forall|j: int| 0 <= j < final(self).nodes@.len() && !(#[trigger] final(self).nodes@[j]).is_vacant() ==> final(self).spell@.contains_key(j)
                    && finished(old(self).minimal_prefix, final(self).records@, final(self).suffixes@, final(self).nodes@, final(self).spell@, j) && (j > 0
                    ==> linked(final(self).mapper, final(self).records@, final(self).nodes@, final(self).spell@, j))
                &&& (!old(self).minimal_prefix ==> forall|i: int| 0 <= i < final(self).records@.len() ==> #[trigger] arr_lookup(
                    final(self).mapper,
                    final(self).nodes@,
                    0,
                    final(self).records@[i].key@,
                ) == Some(final(self).records@[i].value))
                &&& (old(self).minimal_prefix ==> forall|i: int| 0 <= i < final(self).records@.len() ==> #[trigger] mp_found(
                    final(self).mapper,
                    final(self).nodes@,
                    final(self).suffixes@,
                    0,
                    final(self).records@[i].key@,
                    final(self).records@[i].value,
                ))
            },
    {
        let ghost keys = keys_of(old(self).records@);
        let ghost values = values_of(old(self).records@);
        let ghost given = old(self).records@;
        let mut recs: Vec<Record> = Vec::new();
        core::mem::swap(&mut recs, &mut self.records);
        let b = self;
        if recs.len() == 0 {
            return Err(CrawdadError::input("records must not be empty."));
        }
        if !values_fit(&recs) {
            let e = CrawdadError::scale("input value", crate::MAX_VALUE);
            proof {
                let k = choose|k: int| 0 <= k < recs@.len() && !(#[trigger] values_of(recs@)[k] <= 0x7fff_ffff);
                assert(values[k] > 0x7fff_ffff);
                assert(exists|k: int| 0 <= k < values.len() && #[trigger] values[k] > 0x7fff_ffff);
                assert(input_error(keys_of(given), values_of(given)) == Some(e));
            }
            return Err(e);
        }
        let freqs = match make_freqs(&recs) {
            Ok(f) => f,
            Err(e) => return Err(e),
        };
        proof {
            lemma_count_kinds(keys, freqs@, freqs@.len());
            assert(freqs@.take(freqs@.len() as int) =~= freqs@);
            lemma_kinds_tail(keys, freqs@.len(), 0x11_0000);
            lemma_kinds_positive(keys, freqs@.len());
        }
        let mapper = match CodeMapper::new(freqs.as_slice()) {
            Ok(m) => m,
            Err(e) => return Err(e),
        };
        let ghost orig = recs@;
        match make_prefix_free(&mut recs) {
            Ok(()) => {},
            Err(e) => return Err(e),
        }
        proof {
            lemma_rest_len_total(recs@, keys, recs@.len() as int);
            assert(keys.take(recs@.len() as int) =~= keys);
        }
        if recs.len() > OFFSET_MASK as usize {
            proof {
                lemma_pow2_above_ge(2, (mapper.alphabet_size - 1) as u32);
                let bl = block_len_for(kinds(keys)) as int;
                let kt = key_total(keys);
                assert(bl * (1 + kt) > 0x7fff_ffff) by (nonlinear_arith)
                    requires bl >= 2, kt > 0x7fff_ffff;
            }
            return Err(CrawdadError::scale("num_nodes", OFFSET_MASK));
        }
        let block_len = get_block_len(mapper.alphabet_size());
        proof {
            lemma_mapper_facts(mapper, freqs@, keys);
        }
        b.records = recs;
        b.mapper = mapper;
        b.block_len = block_len;
        b.suffixes = Vec::new();
        b.labels = Vec::new();
        b.init_array();
        b.spell = Ghost(Map::<int, (int, int)>::empty().insert(0, (0, 0)));
        proof {
            assert forall|j: int| #[trigger] b.spell@.contains_key(j) implies 0 <= j < b.nodes@.len() && !is_free(b.nodes@, j) by {
                assert(j == 0);
            }
            assert(b.spell_ok());
            assert forall|i: int| 0 <= i < b.records@.len() implies #[trigger] b.records@[i].value <= 0x7fff_ffff by {
                assert(values_of(b.records@)[i] == values_of(given)[i]);
            }
            assert forall|i: int| 0 <= i < b.records@.len() implies coded(b.mapper, #[trigger] b.records@[i].key@, b.block_len) by {
                let key = b.records@[i].key@;
                assert forall|j: int| 0 <= j < key.len() implies (#[trigger] b.mapper.spec_get(key[j]) is Some
                    && b.mapper.spec_get(key[j])->Some_0 < b.block_len) by {
                    if j < keys[i].len() {
                        assert(key[j] == keys[i][j]);
                        assert(occurs(keys, keys[i][j] as u32 as int));
                    } else {
                        assert(key[j] == END_MARKER);
                    }
                }
            }
            let recs2 = b.records@;
            assert(range_ok(recs2, 0, recs2.len() as int, 0)) by {
                assert forall|i: int| 0 <= i < recs2.len() implies #[trigger] recs2[i].key@.len() >= 0 && recs2[i].key@.take(0) == recs2[0].key@.take(0) by {
                    assert(recs2[i].key@.take(0) =~= recs2[0].key@.take(0));
                }
                assert forall|i: int| 0 < i < recs2.len() implies #[trigger] recs2[i].key@.len() > 0 by {
                    assert(separated(recs2[i - 1].key@, recs2[i].key@));
                }
                assert(recs2[0].key@.len() > 0) by {
                    assert(keys[0].len() > 0);
                }
            }
            lemma_max_key_len(recs2);
        }
        let n = b.records.len();
        let ghost init = b.nodes@;
        proof {
            assert(b.mapper_injective());
            assert(!is_free(b.nodes@, 0));
        }
        match b.arrange_nodes(0, n, 0, 0, Ghost(max_key_len(b.records@))) {
            Ok(()) => {},
            Err(e) => {
                proof {
                    let t = rest_len(b.records@, 0, n as int, 0);
                    let bl = b.block_len as int;
                    if 1 + key_total(keys) <= 0x7fff {
                        assert(t <= 0x7ffe);
                        assert(bl + bl * t <= 0x7fff_0000) by (nonlinear_arith)
                            requires t <= 0x7ffe, 0 <= bl <= 0x1_0000;
                    }
                    let kt = key_total(keys);
                    assert(bl * (1 + kt) >= bl + bl * t) by (nonlinear_arith)
                        requires t <= kt, bl >= 0;
                }
                return Err(e);
            },
        }
        let ghost arranged = b.nodes@;
        let ghost m = b.mapper;
        let ghost asuf = b.suffixes@;
        proof {
            assert forall|j: int| 0 <= j < arranged.len() && #[trigger] is_free(arranged, j) == false implies b.spell@.contains_key(j) && finished(
                b.minimal_prefix,
                b.records@,
                b.suffixes@,
                arranged,
                b.spell@,
                j,
            ) by {
                if j > 0 && j < init.len() {
                    assert(is_free(init, j));
                }
            }
        }
        b.finish();
        proof {
            assert(is_free(arranged, 0) == false);
            lemma_finished_frame(b.minimal_prefix, b.records@, b.suffixes@, b.suffixes@, arranged, b.nodes@, b.spell@, b.spell@, 0);
            assert forall|j: int| 0 <= j < b.nodes@.len() && !(#[trigger] b.nodes@[j]).is_vacant() implies b.spell@.contains_key(j) && finished(
                b.minimal_prefix,
                b.records@,
                b.suffixes@,
                b.nodes@,
                b.spell@,
                j,
            ) && (j > 0 ==> linked(b.mapper, b.records@, b.nodes@, b.spell@, j)) by {
                if j > 0 && is_free(arranged, j) {
                    assert(b.nodes@[j].is_vacant());
                }
                assert(is_free(arranged, j) == false);
                assert(b.spell@.contains_key(j) && finished(b.minimal_prefix, b.records@, b.suffixes@, arranged, b.spell@, j));
                assert(same_shape(arranged[j], b.nodes@[j]) || j == 0);
                lemma_finished_frame(b.minimal_prefix, b.records@, b.suffixes@, b.suffixes@, arranged, b.nodes@, b.spell@, b.spell@, j);
                if j > 0 {
                    assert(linked(m, b.records@, arranged, b.spell@, j));
                    let p = arranged[j].get_check() as int;
                    assert(b.spell@.contains_key(p));
                    assert(!is_free(arranged, p));
                    if p > 0 {
                        assert(same_shape(arranged[p], b.nodes@[p]));
                    }
                    lemma_linked_frame(m, b.records@, arranged, b.nodes@, b.spell@, b.spell@, j);
                }
            }
        }
        proof {
            if !b.minimal_prefix {
                assert forall|i: int| 0 <= i < b.records@.len() implies #[trigger] arr_lookup(m, b.nodes@, 0, b.records@[i].key@)
                    == Some(b.records@[i].value) by {
                    let key = b.records@[i].key@;
                    assert(key.skip(0) =~= key);
                    assert(arr_lookup(m, arranged, 0, key.skip(0)) == Some(b.records@[i].value));
                    assert forall|j: int| on_path(m, arranged, 0, key, j) implies j < b.nodes@.len() && same_shape(arranged[j], b.nodes@[j]) by {
                        assert(on_path(m, arranged, 0, key.skip(0), j));
                        assert(j != 0);
                    }
                    lemma_arr_lookup_frame(m, arranged, b.nodes@, 0, key);
                }
            } else {
                assert forall|i: int| 0 <= i < b.records@.len() implies #[trigger] mp_found(m, b.nodes@, b.suffixes@, 0, b.records@[i].key@,
                    b.records@[i].value) by {
                    let key = b.records@[i].key@;
                    assert(key.skip(0) =~= key);
                    assert(mp_found(m, arranged, b.suffixes@, 0, key.skip(0), b.records@[i].value));
                    assert forall|j: int| on_path(m, arranged, 0, key, j) implies j < b.nodes@.len() && same_shape(arranged[j], b.nodes@[j]) by {
                        assert(on_path(m, arranged, 0, key.skip(0), j));
                        assert(j != 0);
                    }
                    lemma_mp_path_frame(m, arranged, b.nodes@, 0, key);
                    let p = mp_path(m, arranged, 0, key)->Some_0;
                    if p.0 != 0 {
                        lemma_mp_leaf_on_path(m, arranged, 0, key);
                        assert(same_shape(arranged[p.0 as int], b.nodes@[p.0 as int]));
                    }
                    assert(arranged[p.0 as int].base == b.nodes@[p.0 as int].base);
                }
            }
        }
        Ok(())
    }
}

/// Node `j` spells the first `d` characters of record `i`, where
/// `sp[j] == (i, d)`: its parent, an arranged internal node, spells the first
/// `d - 1` characters of a record with the same prefix, and `j` sits at the
/// parent's basis XOR the code of character `d - 1`.
pub open spec fn linked(m: CodeMapper, recs: Seq<Record>, nodes: Seq<Node>, sp: Map<int, (int, int)>, j: int) -> bool {
    let i = sp[j].0;
    let d = sp[j].1;
    let p = nodes[j].get_check() as int;
    &&& sp.contains_key(j)
    &&& 0 <= i < recs.len()
    &&& 1 <= d <= recs[i].key@.len()
    &&& 0 <= p < nodes.len()
    &&& !nodes[p].is_leaf()
    &&& sp.contains_key(p)
    &&& sp[p].1 == d - 1
    &&& 0 <= sp[p].0 < recs.len()
    &&& recs[sp[p].0].key@.take(d - 1) == recs[i].key@.take(d - 1)
    &&& m.spec_get(recs[i].key@[d - 1]) is Some
    &&& j == (nodes[p].get_base() ^ m.spec_get(recs[i].key@[d - 1])->Some_0) as int
}

/// Node `j`, spelling `sp[j]`, is finished: a leaf exactly when it spells a
/// whole record (standard form) and then holds its value; in the
/// minimal-prefix form a leaf indexes the suffix holding the rest of the
/// record and its value.
pub open spec fn finished(mp: bool, recs: Seq<Record>, sufs: Seq<Suffix>, nodes: Seq<Node>, sp: Map<int, (int, int)>, j: int) -> bool {
    let i = sp[j].0;
    let d = sp[j].1;
    &&& sp.contains_key(j)
    &&& 0 <= i < recs.len()
    &&& 0 <= d <= recs[i].key@.len()
    &&& !mp ==> (nodes[j].is_leaf() <==> d == recs[i].key@.len())
    &&& !mp && nodes[j].is_leaf() ==> nodes[j].get_base() == recs[i].value
    &&& mp && !nodes[j].is_leaf() ==> d < recs[i].key@.len()
    &&& mp && nodes[j].is_leaf() ==> {
        let s = nodes[j].get_base() as int;
        &&& s < sufs.len()
        &&& sufs[s].key@ == without_end(recs[i].key@.skip(d))
        &&& sufs[s].value == recs[i].value
        &&& sufs[s].node == j
    }
}

/// `linked` holds on `b` where it held on `a`, when the node and its parent
/// keep their shape and spelling.
proof fn lemma_linked_frame(m: CodeMapper, recs: Seq<Record>, a: Seq<Node>, b: Seq<Node>, sa: Map<int, (int, int)>, sb: Map<int, (int, int)>, j: int)
    requires
        linked(m, recs, a, sa, j),
        j < b.len(),
        b[j].get_check() == a[j].get_check(),
        (a[j].get_check() as int) < b.len(),
        b[a[j].get_check() as int].base == a[a[j].get_check() as int].base,
        sb.contains_key(j) && sb[j] == sa[j],
        sb.contains_key(a[j].get_check() as int) && sb[a[j].get_check() as int] == sa[a[j].get_check() as int],
    ensures
        linked(m, recs, b, sb, j),
{
}

/// `finished` holds on `b` where it held on `a`, when the node, its spelling
/// and the suffixes so far are kept.
proof fn lemma_finished_frame(mp: bool, recs: Seq<Record>, sa: Seq<Suffix>, sb: Seq<Suffix>, a: Seq<Node>, b: Seq<Node>, pa: Map<int, (int, int)>, pb: Map<int, (int, int)>, j: int)
    requires
        finished(mp, recs, sa, a, pa, j),
        0 <= j < a.len(),
        j < b.len(),
        b[j].base == a[j].base,
        pb.contains_key(j) && pb[j] == pa[j],
        sb.len() >= sa.len(),
        forall|k: int| 0 <= k < sa.len() ==> #[trigger] sb[k] == sa[k],
    ensures
        finished(mp, recs, sb, b, pb, j),
{
    if mp && a[j].is_leaf() {
        let s = a[j].get_base() as int;
        assert(sb[s] == sa[s]);
    }
}

/// Node `j` is the child, for some record of `from..epos`, of the node with
/// basis `base`.
pub open spec fn pending(base: u32, m: CodeMapper, recs: Seq<Record>, depth: int, from: int, epos: int, j: int) -> bool {
    exists|i: int| from <= i < epos && j == (base ^ #[trigger] label_of(m, recs[i].key@, depth)) as int
}

/// The spelling while the children of `node` from record `from` on are
/// still to be arranged.
pub open spec fn spell_inv(
    b: Builder,
    onodes: Seq<Node>,
    osp: Map<int, (int, int)>,
    base: u32,
    node: int,
    m: CodeMapper,
    recs: Seq<Record>,
    mp: bool,
    depth: int,
    from: int,
    epos: int,
) -> bool {
    &&& forall|k: int| #[trigger] osp.contains_key(k) ==> b.spell@.contains_key(k) && b.spell@[k] == osp[k]
    &&& forall|k: int| #[trigger] b.spell@.contains_key(k) && !osp.contains_key(k) ==> k >= onodes.len() || is_free(onodes, k)
    &&& forall|i: int| from <= i < epos ==> !b.spell@.contains_key((base ^ #[trigger] label_of(m, recs[i].key@, depth)) as int)
    &&& forall|j: int| 0 <= j < b.nodes@.len() && #[trigger] is_free(b.nodes@, j) == false && (j == node || j >= onodes.len() || is_free(onodes, j))
        && !pending(base, m, recs, depth, from, epos, j) ==> b.spell@.contains_key(j) && finished(mp, recs, b.suffixes@, b.nodes@, b.spell@, j)
}

/// Arranging the child `c` of records `i1..i2` keeps the spelling invariant,
/// now from `i2` on.
proof fn lemma_child_step(
    pre: Builder,
    post: Builder,
    msp: Map<int, (int, int)>,
    onodes: Seq<Node>,
    osp: Map<int, (int, int)>,
    base: u32,
    node: int,
    m: CodeMapper,
    recs: Seq<Record>,
    mp: bool,
    depth: int,
    i1: int,
    i2: int,
    epos: int,
    c: int,
)
    requires
        spell_inv(pre, onodes, osp, base, node, m, recs, mp, depth, i1, epos),
        forall|k: int| #[trigger] osp.contains_key(k) ==> 0 <= k < onodes.len() && !is_free(onodes, k),
        forall|j: int| 0 <= j < onodes.len() && #[trigger] is_free(onodes, j) == false ==> !is_free(pre.nodes@, j),
        pre.nodes@.len() >= onodes.len(),
        i1 < i2 <= epos,
        c >= onodes.len() || is_free(onodes, c),
        !is_free(pre.nodes@, c),
        forall|i: int| i1 <= i < i2 ==> (base ^ #[trigger] label_of(m, recs[i].key@, depth)) as int == c,
        forall|i: int| i2 <= i < epos ==> (base ^ #[trigger] label_of(m, recs[i].key@, depth)) as int != c,
        forall|i: int| i2 <= i < epos ==> !is_free(pre.nodes@, (base ^ #[trigger] label_of(m, recs[i].key@, depth)) as int),
        msp == pre.spell@.insert(c, (i1, depth + 1)),
        forall|k: int| #[trigger] post.spell@.contains_key(k) ==> 0 <= k,
        forall|i: int| i2 <= i < epos ==> ((base ^ #[trigger] label_of(m, recs[i].key@, depth)) as int) < pre.nodes@.len(),
        post.nodes@.len() >= pre.nodes@.len(),
        forall|k: int| #[trigger] msp.contains_key(k) ==> post.spell@.contains_key(k) && post.spell@[k] == msp[k],
        forall|k: int| #[trigger] post.spell@.contains_key(k) && !msp.contains_key(k) ==> k >= pre.nodes@.len() || is_free(pre.nodes@, k),
        forall|j: int| 0 <= j < pre.nodes@.len() && !is_free(pre.nodes@, j) && j != c ==> #[trigger] post.nodes@[j] == pre.nodes@[j],
        forall|j: int| 0 <= j < pre.nodes@.len() && !is_free(pre.nodes@, j) ==> !is_free(post.nodes@, j),
        forall|j: int| 0 <= j < post.nodes@.len() && #[trigger] is_free(post.nodes@, j) == false && (j == c || j >= pre.nodes@.len() || is_free(
            pre.nodes@,
            j,
        )) ==> post.spell@.contains_key(j) && finished(mp, recs, post.suffixes@, post.nodes@, post.spell@, j),
        post.suffixes@.len() >= pre.suffixes@.len(),
        forall|k: int| 0 <= k < pre.suffixes@.len() ==> #[trigger] post.suffixes@[k] == pre.suffixes@[k],
    ensures
        spell_inv(post, onodes, osp, base, node, m, recs, mp, depth, i2, epos),
{
    assert forall|k: int| #[trigger] osp.contains_key(k) implies post.spell@.contains_key(k) && post.spell@[k] == osp[k] by {
        assert(pre.spell@.contains_key(k));
        assert(k != c);
        assert(msp.contains_key(k) && msp[k] == pre.spell@[k]);
    }
    assert forall|k: int| #[trigger] post.spell@.contains_key(k) && !osp.contains_key(k) implies k >= onodes.len() || is_free(onodes, k) by {
        if msp.contains_key(k) {
            if k != c {
                assert(pre.spell@.contains_key(k));
            }
        } else {
            if k < onodes.len() && !is_free(onodes, k) {
                assert(is_free(onodes, k) == false);
                assert(!is_free(pre.nodes@, k));
            }
        }
    }
    assert forall|i: int| i2 <= i < epos implies !post.spell@.contains_key((base ^ #[trigger] label_of(m, recs[i].key@, depth)) as int) by {
        let ch = (base ^ label_of(m, recs[i].key@, depth)) as int;
        assert(!pre.spell@.contains_key(ch));
        assert(ch != c);
        assert(!msp.contains_key(ch));
        assert(!is_free(pre.nodes@, ch));
        if post.spell@.contains_key(ch) {
            assert(ch >= pre.nodes@.len() || is_free(pre.nodes@, ch));
        }
    }
    assert forall|j: int| 0 <= j < post.nodes@.len() && #[trigger] is_free(post.nodes@, j) == false && (j == node || j >= onodes.len() || is_free(onodes, j))
        && !pending(base, m, recs, depth, i2, epos, j) implies post.spell@.contains_key(j) && finished(mp, recs, post.suffixes@, post.nodes@, post.spell@, j) by {
        if j == c || j >= pre.nodes@.len() || is_free(pre.nodes@, j) {
        } else {
            assert(!pending(base, m, recs, depth, i1, epos, j)) by {
                if pending(base, m, recs, depth, i1, epos, j) {
                    let i = choose|i: int| i1 <= i < epos && j == (base ^ #[trigger] label_of(m, recs[i].key@, depth)) as int;
                    if i < i2 {
                        assert(j == c);
                    } else {
                        assert(pending(base, m, recs, depth, i2, epos, j));
                    }
                }
            }
            assert(is_free(pre.nodes@, j) == false);
            assert(pre.spell@.contains_key(j) && finished(mp, recs, pre.suffixes@, pre.nodes@, pre.spell@, j));
            assert(post.nodes@[j] == pre.nodes@[j]);
            assert(msp.contains_key(j));
            lemma_finished_frame(mp, recs, pre.suffixes@, post.suffixes@, pre.nodes@, post.nodes@, pre.spell@, post.spell@, j);
        }
    }
}

/// Every internal node whose end-marker child is a leaf carries the flag
/// that says so.
pub open spec fn end_flags_ok(nodes: Seq<Node>) -> bool {
    forall|p: int|
        0 <= p < nodes.len() ==> {
            let nd = #[trigger] nodes[p];
            let e = (nd.base ^ 0) as int;
            (!nd.is_vacant() && !nd.is_leaf() && e < nodes.len() && nodes[e].is_leaf() && nodes[e].get_check()
                == p) ==> nd.has_leaf()
        }
}

/// The mapper of keys `keys`: the end marker has code 0, exactly the
/// characters of the keys have a code, codes are distinct and below the
/// alphabet size, which counts the characters and the end marker.
pub open spec fn maps_keys(m: CodeMapper, keys: Seq<Seq<char>>) -> bool {
    &&& m.spec_get(END_MARKER) == Some(0u32)
    &&& forall|c: char| (#[trigger] m.spec_get(c)) is Some <==> (c == END_MARKER || occurs(keys, c as u32 as int))
    &&& forall|c: char| #[trigger] m.spec_get(c) is Some ==> m.spec_get(c)->Some_0 < m.alphabet_size
    &&& forall|c1: char, c2: char| #[trigger] m.spec_get(c1) is Some && m.spec_get(c1) == #[trigger] m.spec_get(c2) ==> c1 == c2
    &&& m.alphabet_size == kinds(keys)
    &&& m.ranks(freq_table(keys, m.table@.len()))
}

/// Length of the longest key without a trailing end marker.
pub open spec fn max_plain_len(recs: Seq<Record>) -> nat
    decreases recs.len(),
{
    if recs.len() == 0 {
        0
    } else {
        let m = max_plain_len(recs.drop_last());
        if without_end(recs.last().key@).len() > m {
            without_end(recs.last().key@).len()
        } else {
            m
        }
    }
}

proof fn lemma_max_plain_len(recs: Seq<Record>)
    ensures
        forall|i: int| 0 <= i < recs.len() ==> without_end(#[trigger] recs[i].key@).len() <= max_plain_len(recs),
    decreases recs.len(),
{
    if recs.len() > 0 {
        lemma_max_plain_len(recs.drop_last());
        assert forall|i: int| 0 <= i < recs.len() implies without_end(#[trigger] recs[i].key@).len() <= max_plain_len(recs) by {
            if i < recs.len() - 1 {
                assert(recs[i] == recs.drop_last()[i]);
            }
        }
    }
}

/// Length of the longest key.
pub open spec fn max_key_len(recs: Seq<Record>) -> nat
    decreases recs.len(),
{
    if recs.len() == 0 {
        0
    } else {
        let m = max_key_len(recs.drop_last());
        if recs.last().key@.len() > m {
            recs.last().key@.len()
        } else {
            m
        }
    }
}

proof fn lemma_max_key_len(recs: Seq<Record>)
    ensures
        forall|i: int| 0 <= i < recs.len() ==> #[trigger] recs[i].key@.len() <= max_key_len(recs),
    decreases recs.len(),
{
    if recs.len() > 0 {
        lemma_max_key_len(recs.drop_last());
        assert forall|i: int| 0 <= i < recs.len() implies #[trigger] recs[i].key@.len() <= max_key_len(recs) by {
            if i < recs.len() - 1 {
                assert(recs[i] == recs.drop_last()[i]);
            }
        }
    }
}

/// The number of nonzero frequencies counts the characters that get a code.
proof fn lemma_count_kinds(keys: Seq<Seq<char>>, f: Seq<u32>, n: nat)
    requires
        n <= f.len(),
        forall|c: int| 0 <= c < f.len() ==> (#[trigger] f[c] != 0 <==> (c == 0 || occurs(keys, c))),
    ensures
        count_nonzero(f.take(n as int)) == kinds_upto(keys, n),
    decreases n,
{
    if n > 0 {
        lemma_count_kinds(keys, f, (n - 1) as nat);
        assert(f.take(n as int).drop_last() =~= f.take(n - 1));
        assert(f[n - 1] != 0 <==> (n - 1 == 0 || occurs(keys, n - 1)));
    } else {
        assert(f.take(0) =~= Seq::<u32>::empty());
    }
}

proof fn lemma_kinds_tail(keys: Seq<Seq<char>>, l: nat, n: nat)
    requires
        l <= n,
        1 <= l,
        forall|c: int| occurs(keys, c) ==> c < l,
    ensures
        kinds_upto(keys, n) == kinds_upto(keys, l),
    decreases n,
{
    if n > l {
        lemma_kinds_tail(keys, l, (n - 1) as nat);
    }
}

proof fn lemma_kinds_positive(keys: Seq<Seq<char>>, n: nat)
    requires
        n >= 1,
    ensures
        kinds_upto(keys, n) >= 1,
    decreases n,
{
    if n > 1 {
        lemma_kinds_positive(keys, (n - 1) as nat);
    }
}

/// What the mapper built from the frequencies of the keys says of them.
proof fn lemma_mapper_facts(m: CodeMapper, f: Seq<u32>, keys: Seq<Seq<char>>)
    requires
        m.ranks(f),
        1 <= f.len() <= 0x11_0000,
        f[0] == u32::MAX,
        m.table@[0] == 0,
        forall|c: int| 0 <= c < f.len() ==> (#[trigger] f[c] != 0 <==> (c == 0 || occurs(keys, c))),
        forall|c: int| occurs(keys, c) ==> c < f.len(),
        f == freq_table(keys, f.len()),
    ensures
        maps_keys(m, keys),
{
    assert(m.spec_get(END_MARKER) == Some(0u32)) by {
        assert(END_MARKER as u32 == 0);
    }
    assert forall|c: char| (#[trigger] m.spec_get(c)) is Some <==> (c == END_MARKER || occurs(keys, c as u32 as int)) by {
        let i = c as u32 as int;
        lemma_char_range(c);
        assert(END_MARKER as u32 == 0);
        if c == END_MARKER {
            assert(i == 0);
        }
        if i == 0 {
            assert(c as u32 == END_MARKER as u32);
            assert(c == END_MARKER);
        }
    }
    assert forall|c1: char, c2: char| #[trigger] m.spec_get(c1) is Some && m.spec_get(c1) == #[trigger] m.spec_get(c2) implies c1 == c2 by {
        lemma_char_range(c1);
        lemma_char_range(c2);
        let i1 = c1 as u32 as int;
        let i2 = c2 as u32 as int;
        assert(f[i1] != 0);
        assert(f[i2] != 0);
        if i1 != i2 {
            if pair_lt(rank_key(f[i1], i1), rank_key(f[i2], i2)) {
                assert(m.table@[i1] < m.table@[i2]);
            } else {
                assert(pair_lt(rank_key(f[i2], i2), rank_key(f[i1], i1)));
                assert(m.table@[i2] < m.table@[i1]);
            }
        }
    }
    lemma_count_kinds(keys, f, f.len());
    assert(f.take(f.len() as int) =~= f);
    lemma_kinds_tail(keys, f.len(), 0x11_0000);
}

/// Largest value among the suffixes, or 0 when there is none.
fn max_suffix_value(suffixes: &Vec<Suffix>) -> (r: u32)
    ensures
        r == max_value_of(suffixes@),
        forall|i: int| 0 <= i < suffixes@.len() ==> #[trigger] suffixes@[i].value <= r,
{
    let mut max_value: u32 = 0;
    let mut i: usize = 0;
    assert(suffixes@.take(0) =~= Seq::<Suffix>::empty());
    while i < suffixes.len()
        invariant
            i <= suffixes@.len(),
            max_value == max_value_of(suffixes@.take(i as int)),
            forall|k: int| 0 <= k < i ==> #[trigger] suffixes@[k].value <= max_value,
        decreases suffixes@.len() - i,
    {
        assert(suffixes@.take(i + 1).drop_last() =~= suffixes@.take(i as int));
        if suffixes[i].value > max_value {
            max_value = suffixes[i].value;
        }
        i = i + 1;
    }
    assert(suffixes@.take(suffixes@.len() as int) =~= suffixes@);
    max_value
}

/// Largest value among the suffixes, or 0 when there is none.
pub open spec fn max_value_of(sufs: Seq<Suffix>) -> u32
    decreases sufs.len(),
{
    if sufs.len() == 0 {
        0
    } else {
        let m = max_value_of(sufs.drop_last());
        if sufs.last().value > m {
            sufs.last().value
        } else {
            m
        }
    }
}

/// The codes of `key`, `cs` bytes each.
pub open spec fn encode_tail_codes(m: CodeMapper, key: Seq<char>, cs: u8) -> Seq<u8>
    decreases key.len(),
{
    if key.len() == 0 {
        Seq::empty()
    } else {
        encode_tail_codes(m, key.drop_last(), cs) + le_bytes(m.spec_get(key.last())->Some_0 as nat, cs as nat)
    }
}

/// A record of the tail pool: the number of characters, their codes, the
/// value.
pub open spec fn tail_record(m: CodeMapper, key: Seq<char>, value: u32, cs: u8, vs: u8) -> Seq<u8> {
    seq![key.len() as u8] + encode_tail_codes(m, key, cs) + le_bytes(value as nat, vs as nat)
}

proof fn lemma_encode_tail_codes_len(m: CodeMapper, key: Seq<char>, cs: u8)
    ensures
        encode_tail_codes(m, key, cs).len() == key.len() * (cs as int),
    decreases key.len(),
{
    if key.len() > 0 {
        lemma_encode_tail_codes_len(m, key.drop_last(), cs);
        assert(key.len() * (cs as int) == (key.len() - 1) * (cs as int) + cs as int) by (nonlinear_arith);
    }
}

/// The code of the `i`-th character sits at `i * cs` in the encoded codes.
proof fn lemma_encode_tail_codes_at(m: CodeMapper, key: Seq<char>, cs: u8, i: int)
    requires
        0 <= i < key.len(),
    ensures
        encode_tail_codes(m, key, cs).subrange(i * (cs as int), (i + 1) * (cs as int)) == le_bytes(
            m.spec_get(key[i])->Some_0 as nat,
            cs as nat,
        ),
    decreases key.len(),
{
    let c = cs as int;
    lemma_encode_tail_codes_len(m, key.drop_last(), cs);
    assert((i + 1) * c == i * c + c) by (nonlinear_arith);
    if i < key.len() - 1 {
        lemma_encode_tail_codes_at(m, key.drop_last(), cs, i);
        assert((i + 1) * c <= (key.len() - 1) * c) by (nonlinear_arith)
            requires i + 1 <= key.len() - 1, c >= 0;
        assert(0 <= i * c) by (nonlinear_arith)
            requires i >= 0, c >= 0;
        assert(encode_tail_codes(m, key, cs).subrange(i * c, (i + 1) * c) =~= encode_tail_codes(m, key.drop_last(), cs).subrange(
            i * c,
            (i + 1) * c,
        ));
    } else {
        assert(i * c == (key.len() - 1) * c);
        assert(encode_tail_codes(m, key, cs).subrange(i * c, (i + 1) * c) =~= le_bytes(
            m.spec_get(key.last())->Some_0 as nat,
            cs as nat,
        ));
    }
}

/// A tail record in the pool reads back through the trie's tail matching.
pub proof fn lemma_tail_decode(t: crate::mptrie::MpTrie, pos: int, key: Seq<char>, v: u32)
    requires
        1 <= t.code_size <= 4,
        1 <= t.value_size <= 4,
        key.len() <= 0xff,
        0 <= pos,
        pos + 1 + key.len() * (t.code_size as int) + (t.value_size as int) <= t.tails@.len(),
        pos <= 0xffff_ffff,
        t.tails@.subrange(pos, pos + 1 + key.len() * (t.code_size as int) + (t.value_size as int)) == tail_record(
            t.mapper,
            key,
            v,
            t.code_size,
            t.value_size,
        ),
        forall|i: int| 0 <= i < key.len() ==> (#[trigger] t.mapper.spec_get(key[i])) is Some && (t.mapper.spec_get(key[i])->Some_0 as nat)
            < crate::bytes::scale(t.code_size as nat),
        (v as nat) < crate::bytes::scale(t.value_size as nat),
    ensures
        t.tail_value(pos as u32, key) == Some(v),
{
    let cs = t.code_size as int;
    let vs = t.value_size as int;
    let len = key.len() as int;
    let rec = tail_record(t.mapper, key, v, t.code_size, t.value_size);
    lemma_encode_tail_codes_len(t.mapper, key, t.code_size);
    let sub = t.tails@.subrange(pos, pos + 1 + len * cs + vs);
    assert(t.tails@[pos] == rec[0]);
    assert(t.tails@[pos] as int == len);
    assert forall|i: int| 0 <= i < len implies #[trigger] t.mapper.spec_get(key[i]) == Some(t.code_at(pos + 1 + i * cs)) by {
        lemma_encode_tail_codes_at(t.mapper, key, t.code_size, i);
        assert((i + 1) * cs == i * cs + cs) by (nonlinear_arith);
        assert(i * cs + cs <= len * cs) by (nonlinear_arith)
            requires i + 1 <= len, cs >= 0;
        assert(0 <= i * cs) by (nonlinear_arith)
            requires i >= 0, cs >= 0;
        let codes = encode_tail_codes(t.mapper, key, t.code_size);
        let a = pos + 1 + i * cs;
        assert forall|x: int| 0 <= x < cs implies #[trigger] t.tails@.subrange(a, a + cs)[x] == codes.subrange(i * cs, (i + 1) * cs)[x] by {
            assert(t.tails@[a + x] == sub[1 + i * cs + x]);
            assert(rec[1 + i * cs + x] == codes[i * cs + x]);
        }
        assert(t.tails@.subrange(a, a + cs) =~= codes.subrange(i * cs, (i + 1) * cs));
        lemma_le_round_trip_fits(t.mapper.spec_get(key[i])->Some_0 as nat, cs as nat);
    }
    let vpos = pos + 1 + len * cs;
    assert forall|y: int| 0 <= y < vs implies #[trigger] t.tails@.subrange(vpos, vpos + vs)[y] == le_bytes(v as nat, vs as nat)[y] by {
        assert(t.tails@[vpos + y] == sub[1 + len * cs + y]);
        assert(rec[1 + len * cs + y] == le_bytes(v as nat, vs as nat)[y]);
    }
    assert(t.tails@.subrange(vpos, vpos + vs) =~= le_bytes(v as nat, vs as nat));
    lemma_le_round_trip_fits(v as nat, vs as nat);
}

/// Leaf `j` hangs from its parent through the end marker, which the parent
/// is flagged to have.
pub open spec fn end_leaf(nodes: Seq<Node>, j: int) -> bool {
    let p = nodes[j].get_check() as int;
    p < nodes.len() && !nodes[p].is_leaf() && nodes[p].has_leaf() && nodes[p].base == j as u32
}

/// Suffix `k` is the one its leaf holds.
pub open spec fn rec_applies(nodes: Seq<Node>, sufs: Seq<Suffix>, k: int) -> bool {
    let j = sufs[k].node as int;
    &&& j < nodes.len()
    &&& nodes[j].is_leaf()
    &&& !nodes[j].is_vacant()
    &&& nodes[j].get_base() as int == k
}

/// Bytes of the tail records of suffixes `0..k`.
pub open spec fn tails_need(nodes: Seq<Node>, sufs: Seq<Suffix>, cs: u8, vs: u8, k: int) -> int
    decreases k,
{
    if k <= 0 {
        0
    } else {
        tails_need(nodes, sufs, cs, vs, k - 1) + if rec_applies(nodes, sufs, k - 1) && !end_leaf(nodes, sufs[k - 1].node as int) {
            1 + sufs[k - 1].key@.len() * (cs as int) + (vs as int)
        } else {
            0
        }
    }
}

proof fn lemma_tails_need_grows(nodes: Seq<Node>, sufs: Seq<Suffix>, cs: u8, vs: u8, k: int, e: int)
    requires
        0 <= k <= e,
    ensures
        tails_need(nodes, sufs, cs, vs, k) <= tails_need(nodes, sufs, cs, vs, e),
    decreases e - k,
{
    if e > k {
        lemma_tails_need_grows(nodes, sufs, cs, vs, k, e - 1);
        assert(sufs[e - 1].key@.len() * (cs as int) >= 0) by (nonlinear_arith);
    }
}

/// Appends the tail record of `key` and `value` to `tails`.
fn append_tail(tails: &mut Vec<u8>, mapper: &CodeMapper, key: &Vec<char>, value: u32, code_size: u8, value_size: u8, Ghost(b): Ghost<u32>)
    requires
        key@.len() <= 0xff,
        1 <= code_size <= 4,
        1 <= value_size <= 4,
        coded(*mapper, key@, b),
    ensures
        final(tails)@ == old(tails)@ + tail_record(*mapper, key@, value, code_size, value_size),
{
    let ghost start = old(tails)@;
    tails.push(key.len() as u8);
    let mut j: usize = 0;
    assert(key@.take(0) =~= Seq::<char>::empty());
    while j < key.len()
        invariant
            j <= key@.len() <= 0xff,
            1 <= code_size <= 4,
            coded(*mapper, key@, b),
            tails@ == start + seq![key@.len() as u8] + encode_tail_codes(*mapper, key@.take(j as int), code_size),
        decreases key@.len() - j,
    {
        assert(mapper.spec_get(key@[j as int]) is Some);
        let code = mapper.get(key[j]).unwrap();
        pack_u32(tails, code, code_size);
        assert(key@.take(j + 1).drop_last() =~= key@.take(j as int));
        assert(tails@ =~= start + seq![key@.len() as u8] + encode_tail_codes(*mapper, key@.take(j + 1), code_size));
        j = j + 1;
    }
    assert(key@.take(key@.len() as int) =~= key@);
    pack_u32(tails, value, value_size);
    assert(tails@ =~= start + tail_record(*mapper, key@, value, code_size, value_size));
}

/// `s` without a trailing end marker.
pub open spec fn without_end(s: Seq<char>) -> Seq<char> {
    if s.len() > 0 && s.last() == END_MARKER {
        s.drop_last()
    } else {
        s
    }
}

/// Returns the characters of `key` from `depth` on, without a trailing end
/// marker.
fn tail_of(key: &Vec<char>, depth: usize) -> (r: Vec<char>)
    requires
        depth <= key@.len(),
    ensures
        r@ == without_end(key@.skip(depth as int)),
        forall|j: int| 0 <= j < r@.len() ==> r@[j] == key@[depth + j],
{
    let mut end = key.len();
    if end > depth && key[end - 1] == END_MARKER {
        end = end - 1;
    }
    let mut r: Vec<char> = Vec::new();
    let mut i = depth;
    while i < end
        invariant
            depth <= i <= end <= key@.len(),
            r@ == key@.subrange(depth as int, i as int),
        decreases end - i,
    {
        r.push(key[i]);
        i = i + 1;
    }
    assert(r@ =~= without_end(key@.skip(depth as int)));
    r
}

/// Records `i1..i2` that share the character at `d` within a range at depth
/// `d` form a range at depth `d + 1`.
proof fn lemma_child_range(recs: Seq<Record>, s: int, e: int, d: int, i1: int, i2: int, c: char)
    requires
        range_ok(recs, s, e, d),
        forall|k: int| 1 <= k < recs.len() ==> separated(#[trigger] recs[k - 1].key@, recs[k].key@),
        s <= i1 < i2 <= e,
        forall|i: int| i1 <= i < i2 ==> #[trigger] recs[i].key@.len() > d && recs[i].key@[d] == c,
    ensures
        range_ok(recs, i1, i2, d + 1),
{
    assert forall|i: int| i1 <= i < i2 implies #[trigger] recs[i].key@.len() >= d + 1 && recs[i].key@.take(d + 1) == recs[i1].key@.take(d + 1) by {
        assert(recs[i].key@.take(d) == recs[s].key@.take(d));
        assert(recs[i1].key@.take(d) == recs[s].key@.take(d));
        assert(recs[i].key@.take(d + 1) =~= recs[i].key@.take(d).push(c));
        assert(recs[i1].key@.take(d + 1) =~= recs[i1].key@.take(d).push(c));
    }
    assert forall|i: int| i1 < i < i2 implies #[trigger] recs[i].key@.len() > d + 1 by {
        let a = recs[i - 1].key@;
        let b = recs[i].key@;
        assert(separated(a, b));
        let p = choose|p: int| 0 <= p < a.len() && p < b.len() && a.take(p) == b.take(p) && (#[trigger] a[p] as u32) < (b[p] as u32);
        if p <= d {
            assert(a.take(d + 1) == recs[i1].key@.take(d + 1));
            assert(b.take(d + 1) == recs[i1].key@.take(d + 1));
            assert(a[p] == a.take(d + 1)[p]);
            assert(b[p] == b.take(d + 1)[p]);
        }
    }
    if recs[i1].key@.len() == d + 1 && i1 + 1 < i2 {
        let k = i1 + 1;
        assert(separated(recs[k - 1].key@, recs[k].key@));
        let a = recs[i1].key@;
        let b = recs[i1 + 1].key@;
        let p = choose|p: int| 0 <= p < a.len() && p < b.len() && a.take(p) == b.take(p) && (#[trigger] a[p] as u32) < (b[p] as u32);
        assert(b.take(d + 1) == a.take(d + 1));
        assert(a[p] == a.take(d + 1)[p]);
        assert(b[p] == b.take(d + 1)[p]);
    }
}

} // verus!

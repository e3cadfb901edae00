//! Properties of the tries that relate several functions or hold of every
//! built trie.
use vstd::prelude::*;

use crate::builder::{end_flags_ok, maps_keys};
use crate::bytes::{le_bytes, lemma_le_round_trip_fits, lemma_scale_values};
use crate::keys::occurs;
use crate::mapper::lemma_mapper_round_trip;
use crate::mptrie::MpTrie;
use crate::node::{Node, lemma_bits, lemma_constants};
use crate::trie::{Trie, child_of, encode_nodes, lemma_encode_nodes_len};
use crate::END_MARKER;

verus! {

/// A child is found at the XOR of its parent's basis and its label, and its
/// `check` names the parent, which is no leaf.
pub proof fn lemma_child_identity(nodes: Seq<Node>, v: u32, k: u32)
    requires
        child_of(nodes, v, k) is Some,
    ensures
        ({
            let c = child_of(nodes, v, k)->Some_0;
            &&& c == nodes[v as int].get_base() ^ k
            &&& (c as int) < nodes.len()
            &&& nodes[c as int].get_check() == v
            &&& !nodes[v as int].is_leaf()
        }),
{
}

/// In a built array, a leaf reached through the end-marker label hangs from
/// a parent flagged as having it; any other leaf is reached through a
/// nonzero label.
pub proof fn lemma_end_leaf_flagged(nodes: Seq<Node>, p: u32, k: u32)
    requires
        end_flags_ok(nodes),
        nodes.len() <= 0x7fff_ffff,
        child_of(nodes, p, k) is Some,
        nodes[child_of(nodes, p, k)->Some_0 as int].is_leaf(),
    ensures
        k != 0 || (nodes[p as int].has_leaf() && nodes[p as int].base ^ 0 == child_of(nodes, p, k)->Some_0),
{
    if k == 0 {
        let nd = nodes[p as int];
        let c = child_of(nodes, p, k)->Some_0;
        assert(!nd.is_leaf());
        let b = nd.base;
        lemma_bits(b);
        if nd.is_vacant() {
            assert(nd.get_base() == 0x7fff_ffff) by {
                lemma_constants();
            }
        }
        assert(!nd.is_vacant());
        assert(c == nd.base ^ 0);
        assert(nodes[p as int] == nd);
    }
}

/// A vacant node holds `OFFSET_MASK` in both fields, and no label leads to
/// it: an array of at most `OFFSET_MASK` nodes has no parent index that
/// matches its `check`.
pub proof fn lemma_vacant_unreachable(nodes: Seq<Node>, p: u32, k: u32)
    requires
        nodes.len() <= 0x7fff_ffff,
        child_of(nodes, p, k) is Some,
    ensures
        !nodes[child_of(nodes, p, k)->Some_0 as int].is_vacant(),
{
    let c = child_of(nodes, p, k)->Some_0;
    if nodes[c as int].is_vacant() {
        lemma_constants();
        assert(nodes[c as int].get_check() == 0x7fff_ffff);
    }
}

/// Every node that a nonempty key walks to from the root is not vacant.
pub proof fn lemma_walk_avoids_vacant(t: Trie, n: u32, key: Seq<char>)
    requires
        t.nodes@.len() <= 0x7fff_ffff,
        key.len() > 0,
        t.walk(n, key) is Some,
    ensures
        !t.nodes@[t.walk(n, key)->Some_0 as int].is_vacant(),
    decreases key.len(),
{
    let k = t.mapper.spec_get(key[0])->Some_0;
    let c = child_of(t.nodes@, n, k)->Some_0;
    if key.len() == 1 {
        assert(key.skip(1).len() == 0);
        lemma_vacant_unreachable(t.nodes@, n, k);
    } else {
        lemma_walk_avoids_vacant(t, c, key.skip(1));
    }
}

/// The mapper of built keys gives code 0 to the end marker and to no other
/// character.
pub proof fn lemma_end_marker_code(m: crate::mapper::CodeMapper, keys: Seq<Seq<char>>, c: char)
    requires
        maps_keys(m, keys),
    ensures
        m.spec_get(c) == Some(0u32) <==> c == END_MARKER,
{
    if m.spec_get(c) == Some(0u32) {
        assert(m.spec_get(END_MARKER) == Some(0u32));
        assert(m.spec_get(c) is Some && m.spec_get(c) == m.spec_get(END_MARKER));
    }
}

/// A key with a character that no key of the trie holds has no value.
pub proof fn lemma_unknown_char(t: Trie, keys: Seq<Seq<char>>, key: Seq<char>, i: int)
    requires
        maps_keys(t.mapper, keys),
        0 <= i < key.len(),
        key[i] != END_MARKER,
        !occurs(keys, key[i] as u32 as int),
    ensures
        t.lookup(key) is None,
{
    assert(t.mapper.spec_get(key[i]) is None);
    lemma_walk_fails_at(t, 0, key, i);
}

/// A stored key followed by a character that no key holds has no value.
pub proof fn lemma_unknown_extension(t: Trie, keys: Seq<Seq<char>>, key: Seq<char>, c: char)
    requires
        maps_keys(t.mapper, keys),
        c != END_MARKER,
        !occurs(keys, c as u32 as int),
    ensures
        t.lookup(key.push(c)) is None,
{
    assert(key.push(c)[key.len() as int] == c);
    lemma_unknown_char(t, keys, key.push(c), key.len() as int);
}

/// Every key given to the builder looks up to its value in the trie.
pub proof fn lemma_keys_found(r: Result<Trie, crate::errors::CrawdadError>, keys: Seq<Seq<char>>, values: Seq<u32>, i: int)
    requires
        Trie::built(r, keys, values),
        r is Ok,
        0 <= i < keys.len(),
    ensures
        r->Ok_0.lookup(keys[i]) == Some(values[i]),
{
}

/// Every key given to the builder looks up to its value in the
/// minimal-prefix trie.
pub proof fn lemma_mp_keys_found(r: Result<MpTrie, crate::errors::CrawdadError>, keys: Seq<Seq<char>>, values: Seq<u32>, i: int)
    requires
        MpTrie::built(r, keys, values),
        r is Ok,
        0 <= i < keys.len(),
    ensures
        r->Ok_0.lookup(keys[i]) == Some(values[i]),
{
}

/// A key without the end marker that was not given, such as a proper
/// prefix of a given key or a given key extended by any character, has no
/// value in the built trie.
pub proof fn lemma_unstored_absent(r: Result<Trie, crate::errors::CrawdadError>, keys: Seq<Seq<char>>, values: Seq<u32>, key: Seq<char>)
    requires
        Trie::built(r, keys, values),
        r is Ok,
        !key.contains(END_MARKER),
        forall|i: int| 0 <= i < keys.len() ==> keys[i] != key,
    ensures
        r->Ok_0.lookup(key) is None,
{
    if r->Ok_0.lookup(key) is Some {
        let i = choose|i: int| 0 <= i < keys.len() && keys[i] == key && Some(values[i]) == r->Ok_0.lookup(key);
    }
}

/// The same for the minimal-prefix trie.
pub proof fn lemma_mp_unstored_absent(r: Result<MpTrie, crate::errors::CrawdadError>, keys: Seq<Seq<char>>, values: Seq<u32>, key: Seq<char>)
    requires
        MpTrie::built(r, keys, values),
        r is Ok,
        !key.contains(END_MARKER),
        forall|i: int| 0 <= i < keys.len() ==> keys[i] != key,
    ensures
        r->Ok_0.lookup(key) is None,
{
    if r->Ok_0.lookup(key) is Some {
        let i = choose|i: int| 0 <= i < keys.len() && keys[i] == key && Some(values[i]) == r->Ok_0.lookup(key);
    }
}

/// Exact match in a built trie: a key without the end marker has value `v`
/// exactly when it is given with value `v`.
pub proof fn lemma_lookup_exact(r: Result<Trie, crate::errors::CrawdadError>, keys: Seq<Seq<char>>, values: Seq<u32>, key: Seq<char>, v: u32)
    requires
        Trie::built(r, keys, values),
        r is Ok,
        !key.contains(END_MARKER),
    ensures
        r->Ok_0.lookup(key) == Some(v) <==> exists|i: int| 0 <= i < keys.len() && keys[i] == key && values[i] == v,
{
    let t = r->Ok_0;
    if exists|i: int| 0 <= i < keys.len() && keys[i] == key && values[i] == v {
        let i = choose|i: int| 0 <= i < keys.len() && keys[i] == key && values[i] == v;
        assert(t.lookup(keys[i]) == Some(values[i]));
    }
    if t.lookup(key) == Some(v) {
        let i = choose|i: int| 0 <= i < keys.len() && keys[i] == key && Some(values[i]) == t.lookup(key);
    }
}

/// Exact match in a built minimal-prefix trie.
pub proof fn lemma_mp_lookup_exact(r: Result<MpTrie, crate::errors::CrawdadError>, keys: Seq<Seq<char>>, values: Seq<u32>, key: Seq<char>, v: u32)
    requires
        MpTrie::built(r, keys, values),
        r is Ok,
        !key.contains(END_MARKER),
    ensures
        r->Ok_0.lookup(key) == Some(v) <==> exists|i: int| 0 <= i < keys.len() && keys[i] == key && values[i] == v,
{
    let t = r->Ok_0;
    if exists|i: int| 0 <= i < keys.len() && keys[i] == key && values[i] == v {
        let i = choose|i: int| 0 <= i < keys.len() && keys[i] == key && values[i] == v;
        assert(t.lookup(keys[i]) == Some(values[i]));
    }
    if t.lookup(key) == Some(v) {
        let i = choose|i: int| 0 <= i < keys.len() && keys[i] == key && Some(values[i]) == t.lookup(key);
    }
}

/// Two tries built from the same keys and values, for instance by
/// `from_keys` and by `from_records` on the keys numbered by position, give
/// the same value for every key without the end marker.
pub proof fn lemma_builds_agree(
    r1: Result<Trie, crate::errors::CrawdadError>,
    r2: Result<Trie, crate::errors::CrawdadError>,
    keys: Seq<Seq<char>>,
    values: Seq<u32>,
    key: Seq<char>,
)
    requires
        Trie::built(r1, keys, values),
        Trie::built(r2, keys, values),
        r1 is Ok,
        r2 is Ok,
        !key.contains(END_MARKER),
    ensures
        r1->Ok_0.lookup(key) == r2->Ok_0.lookup(key),
{
    if r1->Ok_0.lookup(key) is Some {
        lemma_lookup_exact(r1, keys, values, key, r1->Ok_0.lookup(key)->Some_0);
        lemma_lookup_exact(r2, keys, values, key, r1->Ok_0.lookup(key)->Some_0);
    }
    if r2->Ok_0.lookup(key) is Some {
        lemma_lookup_exact(r1, keys, values, key, r2->Ok_0.lookup(key)->Some_0);
        lemma_lookup_exact(r2, keys, values, key, r2->Ok_0.lookup(key)->Some_0);
    }
}

/// The given keys that are prefixes of `h` of length `1..=j`, with their
/// values, by increasing length.
pub open spec fn stored_matches(keys: Seq<Seq<char>>, values: Seq<u32>, h: Seq<char>, j: nat) -> Seq<(u32, usize)>
    decreases j,
{
    if j == 0 {
        Seq::empty()
    } else {
        let prev = stored_matches(keys, values, h, (j - 1) as nat);
        if exists|i: int| 0 <= i < keys.len() && keys[i] == h.take(j as int) {
            let i = choose|i: int| 0 <= i < keys.len() && keys[i] == h.take(j as int);
            prev.push((values[i], j as usize))
        } else {
            prev
        }
    }
}

proof fn lemma_no_end_prefix(h: Seq<char>, j: int)
    requires
        !h.contains(END_MARKER),
        0 <= j <= h.len(),
    ensures
        !h.take(j).contains(END_MARKER),
{
    if h.take(j).contains(END_MARKER) {
        let q = choose|q: int| 0 <= q < h.take(j).len() && h.take(j)[q] == END_MARKER;
        assert(h[q] == END_MARKER);
    }
}

/// Common-prefix search in a built trie finds exactly the given keys that
/// start the haystack, shortest first.
pub proof fn lemma_prefix_search_exact(r: Result<Trie, crate::errors::CrawdadError>, keys: Seq<Seq<char>>, values: Seq<u32>, h: Seq<char>, j: nat)
    requires
        Trie::built(r, keys, values),
        r is Ok,
        !h.contains(END_MARKER),
        j <= h.len(),
    ensures
        r->Ok_0.prefix_matches(h, j) == stored_matches(keys, values, h, j),
    decreases j,
{
    if j > 0 {
        lemma_prefix_search_exact(r, keys, values, h, (j - 1) as nat);
        let w = h.take(j as int);
        lemma_no_end_prefix(h, j as int);
        if exists|i: int| 0 <= i < keys.len() && keys[i] == w {
            let i = choose|i: int| 0 <= i < keys.len() && keys[i] == w;
            lemma_lookup_exact(r, keys, values, w, values[i]);
        } else {
            if r->Ok_0.lookup(w) is Some {
                lemma_lookup_exact(r, keys, values, w, r->Ok_0.lookup(w)->Some_0);
            }
        }
    }
}

/// Common-prefix search in a built minimal-prefix trie finds exactly the
/// given keys that start the haystack, shortest first.
pub proof fn lemma_mp_prefix_search_exact(r: Result<MpTrie, crate::errors::CrawdadError>, keys: Seq<Seq<char>>, values: Seq<u32>, h: Seq<char>, j: nat)
    requires
        MpTrie::built(r, keys, values),
        r is Ok,
        !h.contains(END_MARKER),
        j <= h.len(),
    ensures
        r->Ok_0.prefix_matches(h, j) == stored_matches(keys, values, h, j),
    decreases j,
{
    if j > 0 {
        lemma_mp_prefix_search_exact(r, keys, values, h, (j - 1) as nat);
        let w = h.take(j as int);
        lemma_no_end_prefix(h, j as int);
        if exists|i: int| 0 <= i < keys.len() && keys[i] == w {
            let i = choose|i: int| 0 <= i < keys.len() && keys[i] == w;
            lemma_mp_lookup_exact(r, keys, values, w, values[i]);
        } else {
            if r->Ok_0.lookup(w) is Some {
                lemma_mp_lookup_exact(r, keys, values, w, r->Ok_0.lookup(w)->Some_0);
            }
        }
    }
}

/// A walk that meets a character without a code fails.
pub proof fn lemma_walk_fails_at(t: Trie, n: u32, key: Seq<char>, i: int)
    requires
        0 <= i < key.len(),
        t.mapper.spec_get(key[i]) is None,
    ensures
        t.walk(n, key) is None,
    decreases key.len(),
{
    if i > 0 {
        match t.mapper.spec_get(key[0]) {
            Some(k) => match child_of(t.nodes@, n, k) {
                Some(c) => {
                    assert(key.skip(1)[i - 1] == key[i]);
                    lemma_walk_fails_at(t, c, key.skip(1), i - 1);
                },
                None => {},
            },
            None => {},
        }
    }
}

/// The bytes of a trie are long enough for the lengths they hold, so they
/// can be read back.
pub proof fn lemma_trie_encoding_fits(t: Trie, rest: Seq<u8>)
    requires
        t.mapper.table@.len() <= 0xffff_ffff,
        t.nodes@.len() <= 0xffff_ffff,
    ensures
        Trie::fits(t.encode() + rest),
{
    let after = le_bytes(t.nodes@.len(), 4) + encode_nodes(t.nodes@) + rest;
    let s = t.encode() + rest;
    assert(s =~= t.mapper.encode() + after);
    lemma_mapper_round_trip(t.mapper, after);
    lemma_scale_values();
    lemma_le_round_trip_fits(t.nodes@.len(), 4);
    lemma_encode_nodes_len(t.nodes@);
    assert(after.take(4) =~= le_bytes(t.nodes@.len(), 4));
}

/// The bytes of a minimal-prefix trie are long enough for the lengths they
/// hold, so they can be read back.
pub proof fn lemma_mptrie_encoding_fits(t: MpTrie, rest: Seq<u8>)
    requires
        t.mapper.table@.len() <= 0xffff_ffff,
        t.nodes@.len() <= 0xffff_ffff,
        t.tails@.len() <= 0xffff_ffff,
    ensures
        MpTrie::fits(t.encode() + rest),
{
    let after_nodes = le_bytes(t.tails@.len(), 4) + t.tails@ + seq![t.code_size, t.value_size] + rest;
    let after = le_bytes(t.nodes@.len(), 4) + encode_nodes(t.nodes@) + after_nodes;
    let s = t.encode() + rest;
    assert(s =~= t.mapper.encode() + after);
    lemma_mapper_round_trip(t.mapper, after);
    lemma_scale_values();
    lemma_le_round_trip_fits(t.nodes@.len(), 4);
    lemma_le_round_trip_fits(t.tails@.len(), 4);
    lemma_encode_nodes_len(t.nodes@);
    assert(after.take(4) =~= le_bytes(t.nodes@.len(), 4));
    assert(after.skip(4 + 8 * (t.nodes@.len() as int)) =~= after_nodes);
    assert(after_nodes.take(4) =~= le_bytes(t.tails@.len(), 4));
}

} // verus!

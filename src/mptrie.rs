//! A minimal-prefix trie form that is memory-efficient for long strings.
use vstd::prelude::*;

use crate::builder::{
    Builder, block_len_for, end_flags_ok, end_leaf, finished, linked, lemma_max_plain_bound, lemma_tails_need_bound, maps_keys, max_value_of, mp_found, mp_path, rec_applies,
    without_end,
};
use crate::bytes::byte_width;
use crate::keys::{index_values, key_total, kinds, list_keys, occurs, str_keys, str_values, values_of};
use crate::bytes::{le_bytes, le_value, lemma_le_round_trip_fits, lemma_scale_values, pack_u32, unpack_u32};
use crate::errors::{CrawdadError, ScaleError};
use crate::keys::input_error;
use crate::mapper::{CodeMapper, lemma_mapper_round_trip};
use crate::node::{Node, lemma_bits, lemma_constants, lemma_xor_cancel};
use crate::utils::contains_end_marker;
use crate::trie::{
    child_of, copy_chars, count_vacant, map_codes, decode_nodes, deserialize_nodes, encode_nodes, get_child_idx, lemma_encode_nodes_len,
    lemma_nodes_round_trip, num_vacant_nodes, serialize_nodes,
};
use crate::{END_CODE, END_MARKER, OFFSET_MASK};

verus! {

/// Returns `a` followed by `b`.
fn concat_chars(a: &Vec<char>, b: &Vec<char>) -> (r: Vec<char>)
    ensures
        r@ == a@ + b@,
{
    let mut r = copy_chars(a);
    let mut i: usize = 0;
    while i < b.len()
        invariant
            i <= b@.len(),
            r@ == a@ + b@.take(i as int),
        decreases b@.len() - i,
    {
        r.push(b[i]);
        assert(a@ + b@.take(i + 1) =~= (a@ + b@.take(i as int)).push(b@[i as int]));
        i = i + 1;
    }
    assert(b@.take(b@.len() as int) =~= b@);
    r
}

/// A minimal-prefix trie form that is memory-efficient for long strings.
///
/// A leaf's `base` holds the offset of its record in `tails`: the number of
/// remaining characters, their codes in `code_size` bytes each, and the value
/// in `value_size` bytes, all little-endian. A leaf reached through the end
/// marker holds its value directly.
#[derive(Debug, PartialEq, Eq)]
pub struct MpTrie {
    /// Codes of the characters.
    pub mapper: CodeMapper,
    /// The double array.
    pub nodes: Vec<Node>,
    /// The tail records.
    pub tails: Vec<u8>,
    /// Bytes per code in `tails`.
    pub code_size: u8,
    /// Bytes per value in `tails`.
    pub value_size: u8,
}


/// Releasing leaves keeps what following codes reads: internal and vacant
/// nodes stay, leaves stay leaves under the same parent.
pub open spec fn keeps_structure(a: Seq<Node>, b: Seq<Node>) -> bool {
    &&& a.len() == b.len()
    &&& forall|j: int| 0 <= j < a.len() && (!a[j].is_leaf() || a[j].is_vacant()) ==> #[trigger] b[j] == a[j]
    &&& forall|j: int| 0 <= j < a.len() && a[j].is_leaf() && !a[j].is_vacant() ==> #[trigger] b[j].is_leaf() && b[j].check == a[j].check
}

proof fn lemma_child_of_kept(a: Seq<Node>, b: Seq<Node>, x: u32, k: u32)
    requires
        keeps_structure(a, b),
    ensures
        child_of(a, x, k) == child_of(b, x, k),
{
    if (x as int) < a.len() {
        let bx = a[x as int].base;
        lemma_bits(bx);
        if a[x as int].is_leaf() {
            assert(!a[x as int].is_vacant());
            assert(b[x as int].is_leaf());
        } else {
            assert(b[x as int] == a[x as int]);
            let c = a[x as int].get_base() ^ k;
            if (c as int) < a.len() {
                let bc = a[c as int].base;
                lemma_bits(bc);
                if a[c as int].is_leaf() && !a[c as int].is_vacant() {
                    assert(b[c as int].is_leaf());
                    assert(b[c as int].check == a[c as int].check);
                } else {
                    assert(b[c as int] == a[c as int]);
                }
            }
        }
    }
}

proof fn lemma_mp_path_kept(m: CodeMapper, a: Seq<Node>, b: Seq<Node>, n: u32, key: Seq<char>)
    requires
        keeps_structure(a, b),
    ensures
        mp_path(m, a, n, key) == mp_path(m, b, n, key),
    decreases key.len(),
{
    if (n as int) < a.len() {
        let bn = a[n as int].base;
        lemma_bits(bn);
        if a[n as int].is_leaf() {
            assert(!a[n as int].is_vacant());
            assert(b[n as int].is_leaf());
        } else {
            assert(b[n as int] == a[n as int]);
        }
    }
    if key.len() > 0 {
        match m.spec_get(key[0]) {
            Some(k) => {
                lemma_child_of_kept(a, b, n, k);
                match child_of(a, n, k) {
                    Some(c) => lemma_mp_path_kept(m, a, b, c, key.skip(1)),
                    None => {},
                }
            },
            None => {},
        }
    }
}

/// Under the size bounds, releasing a built minimal-prefix array succeeds.
proof fn lemma_release_succeeds(b: Builder, keys: Seq<Seq<char>>, values: Seq<u32>)
    requires
        Builder::built(Ok(b), true, keys, values),
    ensures
        input_error(keys, values) is None && 1 + key_total(keys) <= 0x7fff && (forall|i: int| 0 <= i < keys.len() ==> #[trigger] keys[i].len()
            <= 0xff) ==> (forall|k: int| 0 <= k < b.suffixes@.len() ==> (#[trigger] b.suffixes@[k]).key@.len() <= 0xff) && b.tails_needed()
            <= 0x7fff_ffff,
{
    if input_error(keys, values) is None && 1 + key_total(keys) <= 0x7fff && (forall|i: int| 0 <= i < keys.len() ==> #[trigger] keys[i].len()
        <= 0xff) {
        lemma_max_plain_bound(b.records@, keys, 0xff);
        let cs = byte_width((b.mapper.alphabet_size - 1) as u32);
        let vs = byte_width(max_value_of(b.suffixes@));
        lemma_tails_need_bound(b.nodes@, b.suffixes@, cs, vs, b.suffixes@.len() as int);
        let k = b.suffixes@.len() as int;
        assert(0x401 * k <= 0x401 * 0x7ffe) by (nonlinear_arith)
            requires k <= 0x7ffe;
    }
}

/// Where each part of the bytes of a minimal-prefix trie lies.
#[verifier::spinoff_prover]
proof fn lemma_mp_layout(t: MpTrie, tail: Seq<u8>)
    requires
        t.mapper.table@.len() <= 0xffff_ffff,
        t.nodes@.len() <= 0xffff_ffff,
        t.tails@.len() <= 0xffff_ffff,
    ensures
        ({
            let src = t.encode() + tail;
            let n = t.mapper.table@.len() as int;
            let after = src.skip(8 + 2 * n);
            let nn = t.nodes@.len() as int;
            let after_nodes = after.skip(4 + 8 * nn);
            let tl = t.tails@.len() as int;
            &&& le_value(src.take(4)) == n
            &&& crate::mapper::decode_codes(src.skip(4), n as nat) == t.mapper.table@
            &&& le_value(src.subrange(4 + 2 * n, 8 + 2 * n)) == t.mapper.alphabet_size as nat
            &&& le_value(after.take(4)) == nn
            &&& 4 + 8 * nn <= after.len()
            &&& decode_nodes(after.skip(4), nn as nat) == t.nodes@
            &&& le_value(after_nodes.take(4)) == tl
            &&& 4 + tl + 2 <= after_nodes.len()
            &&& after_nodes.subrange(4, 4 + tl) == t.tails@
            &&& after_nodes[4 + tl] == t.code_size
            &&& after_nodes[4 + tl + 1] == t.value_size
            &&& after_nodes.skip(4 + tl + 2) == tail
        }),
{
    let after_nodes = le_bytes(t.tails@.len(), 4) + t.tails@ + seq![t.code_size, t.value_size] + tail;
    let after = le_bytes(t.nodes@.len(), 4) + encode_nodes(t.nodes@) + after_nodes;
    let src = t.encode() + tail;
    assert(src =~= t.mapper.encode() + after);
    lemma_mapper_round_trip(t.mapper, after);
    lemma_scale_values();
    lemma_le_round_trip_fits(t.nodes@.len(), 4);
    lemma_le_round_trip_fits(t.tails@.len(), 4);
    lemma_encode_nodes_len(t.nodes@);
    assert(after.take(4) =~= le_bytes(t.nodes@.len(), 4));
    assert(after.skip(4) =~= encode_nodes(t.nodes@) + after_nodes);
    lemma_nodes_round_trip(t.nodes@, after_nodes);
    assert(after.skip(4 + 8 * (t.nodes@.len() as int)) =~= after_nodes);
    assert(after_nodes.take(4) =~= le_bytes(t.tails@.len(), 4));
    assert(after_nodes.subrange(4, 4 + (t.tails@.len() as int)) =~= t.tails@);
    assert(after_nodes.skip(4 + (t.tails@.len() as int) + 2) =~= tail);
}

/// The same tail record matches at most one key, when codes are distinct.
proof fn lemma_tail_unique(t: MpTrie, pos: u32, a: Seq<char>, b: Seq<char>)
    requires
        t.tail_value(pos, a) is Some,
        t.tail_value(pos, b) is Some,
        forall|c1: char, c2: char| #[trigger] t.mapper.spec_get(c1) is Some && t.mapper.spec_get(c1) == #[trigger] t.mapper.spec_get(c2) ==> c1 == c2,
    ensures
        a == b,
        t.tail_value(pos, a) == t.tail_value(pos, b),
{
    let cs = t.code_size as int;
    assert forall|i: int| 0 <= i < a.len() implies a[i] == b[i] by {
        assert(t.mapper.spec_get(a[i]) == Some(t.code_at(pos + 1 + i * cs)));
        assert(t.mapper.spec_get(b[i]) == Some(t.code_at(pos + 1 + i * cs)));
    }
    assert(a =~= b);
}

/// Looking `u` up from a node that spells `s` finds a value only for a
/// given key `s + u`, with that value.
proof fn lemma_mp_only(b: Builder, t: MpTrie, keys: Seq<Seq<char>>, values: Seq<u32>, y: u32, u: Seq<char>, v: u32)
    requires
        Builder::built(Ok(b), true, keys, values),
        input_error(keys, values) is None,
        t.mapper == b.mapper,
        keeps_structure(b.nodes@, t.nodes@),
        forall|k: int| 0 <= k < b.suffixes@.len() && #[trigger] rec_applies(b.nodes@, b.suffixes@, k) ==> {
            let j = b.suffixes@[k].node as int;
            &&& end_leaf(b.nodes@, j) ==> t.nodes@[j].get_base() == b.suffixes@[k].value
            &&& !end_leaf(b.nodes@, j) ==> t.tail_value(t.nodes@[j].get_base(), b.suffixes@[k].key@) == Some(b.suffixes@[k].value)
        },
        (y as int) < b.nodes@.len(),
        b.spell@.contains_key(y as int),
        finished(true, b.records@, b.suffixes@, b.nodes@, b.spell@, y as int),
        b.nodes@[y as int].is_leaf() ==> !end_leaf(b.nodes@, y as int),
        !b.records@[b.spell@[y as int].0].key@.take(b.spell@[y as int].1).contains(END_MARKER),
        !u.contains(END_MARKER),
        t.lookup_from(y, u) == Some(v),
    ensures
        exists|i: int| 0 <= i < keys.len() && keys[i] == b.records@[b.spell@[y as int].0].key@.take(b.spell@[y as int].1) + u && values[i] == v,
    decreases u.len(),
{
    let bn = b.nodes@;
    let tn = t.nodes@;
    let sp = b.spell@;
    let recs = b.records@;
    let sufs = b.suffixes@;
    let yi = y as int;
    let iy = sp[yi].0;
    let dy = sp[yi].1;
    let sy = recs[iy].key@.take(dy);
    assert(recs[iy].key@ == keys[iy] || recs[iy].key@ == keys[iy].push(END_MARKER));
    assert(values_of(recs)[iy] == values[iy]);
    assert forall|i: int, j: int| 0 <= i < keys.len() && 0 <= j < keys[i].len() implies keys[i][j] != END_MARKER by {
        if keys[i][j] == END_MARKER {
            assert(END_MARKER as u32 == 0);
            assert(keys[i][j] as u32 as int == 0);
            assert(occurs(keys, 0));
        }
    }
    let by = bn[yi].base;
    lemma_bits(by);
    if bn[yi].is_leaf() {
        assert(tn[yi].is_leaf());
        let sidx = bn[yi].get_base() as int;
        assert(rec_applies(bn, sufs, sidx));
        assert(!end_leaf(bn, yi));
        let skey = sufs[sidx].key@;
        assert(t.tail_value(tn[yi].get_base(), skey) == Some(sufs[sidx].value));
        assert(t.lookup_from(y, u) == t.tail_value(tn[yi].get_base(), u));
        lemma_tail_unique(t, tn[yi].get_base(), u, skey);
        assert(skey == without_end(recs[iy].key@.skip(dy)));
        if recs[iy].key@ == keys[iy].push(END_MARKER) {
            if dy > keys[iy].len() {
                assert(sy[keys[iy].len() as int] == END_MARKER);
                assert(sy.contains(END_MARKER));
            }
            assert(recs[iy].key@.skip(dy) =~= keys[iy].skip(dy).push(END_MARKER));
            assert(sy + u =~= keys[iy]);
        } else {
            if keys[iy].skip(dy).len() > 0 {
                assert(keys[iy].skip(dy).last() == keys[iy][keys[iy].len() - 1]);
            }
            assert(sy + u =~= keys[iy]);
        }
    } else {
        assert(tn[yi] == bn[yi]);
        if u.len() == 0 {
            assert(bn[yi].has_leaf());
            let e = (bn[yi].base ^ 0) as int;
            lemma_bits(by);
            assert(bn[e].get_check() == y);
            lemma_constants();
            assert(!bn[e].is_vacant());
            assert(e != 0) by {
                if e == 0 {
                    assert(bn[0].get_check() == 0x7fff_ffff);
                }
            }
            assert(linked(b.mapper, recs, bn, sp, e));
            assert(finished(true, recs, sufs, bn, sp, e));
            let ie = sp[e].0;
            let de = sp[e].1;
            let ke = b.mapper.spec_get(recs[ie].key@[de - 1])->Some_0;
            lemma_xor_cancel(by, ke, 0);
            assert(ke == 0);
            assert(b.mapper.spec_get(recs[ie].key@[de - 1]) == b.mapper.spec_get(END_MARKER));
            assert(recs[ie].key@[de - 1] == END_MARKER);
            assert(recs[ie].key@ == keys[ie] || recs[ie].key@ == keys[ie].push(END_MARKER));
            if recs[ie].key@ == keys[ie] {
                assert(keys[ie][de - 1] == END_MARKER);
            }
            assert(de - 1 == keys[ie].len());
            assert(bn[e].is_leaf());
            let sidx = bn[e].get_base() as int;
            assert(rec_applies(bn, sufs, sidx));
            assert(end_leaf(bn, e));
            assert(recs[ie].key@.take(dy) == sy);
            assert(keys[ie] =~= sy);
            assert(sy + u =~= sy);
            assert(values_of(recs)[ie] == values[ie]);
        } else {
            let k = t.mapper.spec_get(u[0])->Some_0;
            lemma_child_of_kept(bn, tn, y, k);
            let z = child_of(tn, y, k)->Some_0;
            let zi = z as int;
            assert(bn[zi].get_check() == y);
            lemma_constants();
            assert(!bn[zi].is_vacant());
            assert(zi != 0) by {
                if zi == 0 {
                    assert(bn[0].get_check() == 0x7fff_ffff);
                }
            }
            assert(linked(b.mapper, recs, bn, sp, zi));
            assert(finished(true, recs, sufs, bn, sp, zi));
            let iz = sp[zi].0;
            let dz = sp[zi].1;
            let kz = b.mapper.spec_get(recs[iz].key@[dz - 1])->Some_0;
            let bb = bn[yi].get_base();
            lemma_xor_cancel(bb, kz, k);
            assert(kz == k);
            assert(b.mapper.spec_get(recs[iz].key@[dz - 1]) == b.mapper.spec_get(u[0]));
            assert(recs[iz].key@[dz - 1] == u[0]);
            assert(u[0] != END_MARKER);
            let sz = recs[iz].key@.take(dz);
            assert(sz =~= sy.push(u[0]));
            assert(!sz.contains(END_MARKER)) by {
                if sz.contains(END_MARKER) {
                    let q = choose|q: int| 0 <= q < sz.len() && sz[q] == END_MARKER;
                    if q < sy.len() {
                        assert(sy[q] == END_MARKER);
                    }
                }
            }
            if bn[zi].is_leaf() && end_leaf(bn, zi) {
                let bz = bn[yi].base;
                lemma_bits(bz);
                lemma_xor_cancel(bb, k, 0);
                assert(k == 0);
                assert(t.mapper.spec_get(u[0]) == t.mapper.spec_get(END_MARKER));
                assert(u[0] == END_MARKER);
                assert(u.contains(END_MARKER));
            }
            assert(!u.skip(1).contains(END_MARKER)) by {
                if u.skip(1).contains(END_MARKER) {
                    let q = choose|q: int| 0 <= q < u.skip(1).len() && u.skip(1)[q] == END_MARKER;
                    assert(u[q + 1] == END_MARKER);
                }
            }
            lemma_mp_only(b, t, keys, values, z, u.skip(1), v);
            assert(sz + u.skip(1) =~= sy + u);
        }
    }
}

/// Every key given to the builder looks up to its value in the released
/// minimal-prefix trie.
proof fn lemma_mp_all_found(b: Builder, t: MpTrie, keys: Seq<Seq<char>>, values: Seq<u32>)
    requires
        Builder::built(Ok(b), true, keys, values),
        t.mapper == b.mapper,
        keeps_structure(b.nodes@, t.nodes@),
        forall|k: int| 0 <= k < b.suffixes@.len() && #[trigger] rec_applies(b.nodes@, b.suffixes@, k) ==> {
            let j = b.suffixes@[k].node as int;
            &&& end_leaf(b.nodes@, j) ==> t.nodes@[j].get_base() == b.suffixes@[k].value
            &&& !end_leaf(b.nodes@, j) ==> t.tail_value(t.nodes@[j].get_base(), b.suffixes@[k].key@) == Some(b.suffixes@[k].value)
        },
    ensures
        forall|i: int| 0 <= i < keys.len() ==> #[trigger] t.lookup(keys[i]) == Some(values[i]),
        forall|key: Seq<char>| !key.contains(END_MARKER) && (#[trigger] t.lookup(key)) is Some ==> exists|i: int|
            0 <= i < keys.len() && keys[i] == key && Some(values[i]) == t.lookup(key),
        forall|p: int| 0 <= p < t.nodes@.len() && #[trigger] t.nodes@[p].has_leaf() ==> {
            let e = (t.nodes@[p].base ^ 0) as int;
            &&& e < t.nodes@.len()
            &&& t.nodes@[e].get_check() == p
        },
{
    let m = b.mapper;
    let bn = b.nodes@;
    let sufs = b.suffixes@;
    assert forall|p: int| 0 <= p < t.nodes@.len() && #[trigger] t.nodes@[p].has_leaf() implies ({
        let e = (t.nodes@[p].base ^ 0) as int;
        &&& e < t.nodes@.len()
        &&& t.nodes@[e].get_check() == p
    }) by {
        let bp = bn[p].base;
        lemma_bits(bp);
        if bn[p].is_leaf() && !bn[p].is_vacant() {
            assert(t.nodes@[p].is_leaf());
            assert(t.nodes@[p].check == bn[p].check);
            assert(bn[p].has_leaf());
            assert(!bn[p].is_leaf());
        }
        assert(t.nodes@[p] == bn[p]);
        let e = (bn[p].base ^ 0) as int;
        let be = bn[e].base;
        lemma_bits(be);
        if bn[e].is_leaf() && !bn[e].is_vacant() {
            assert(t.nodes@[e].is_leaf());
            assert(t.nodes@[e].check == bn[e].check);
        } else {
            assert(t.nodes@[e] == bn[e]);
        }
    }
    assert forall|key: Seq<char>| !key.contains(END_MARKER) && (#[trigger] t.lookup(key)) is Some implies exists|i: int|
        0 <= i < keys.len() && keys[i] == key && Some(values[i]) == t.lookup(key) by {
        assert(input_error(keys, values) is None);
        assert(b.records@[0].key@.take(0) =~= Seq::<char>::empty());
        assert(!b.records@[0].key@.take(0).contains(END_MARKER));
        assert(!end_leaf(bn, 0)) by {
            assert(bn[0].get_check() == 0x7fff_ffff);
        }
        lemma_mp_only(b, t, keys, values, 0, key, t.lookup(key)->Some_0);
        assert(b.records@[0].key@.take(0) + key =~= key);
    }
    assert forall|i: int| 0 <= i < keys.len() implies #[trigger] t.lookup(keys[i]) == Some(values[i]) by {
        let rkey = b.records@[i].key@;
        let orig = keys[i];
        assert(values_of(b.records@)[i] == values[i]);
        assert(rkey == orig || rkey == orig.push(END_MARKER));
        assert(mp_found(m, bn, sufs, 0, rkey, b.records@[i].value));
        let p = mp_path(m, bn, 0, rkey)->Some_0;
        let l = p.0;
        let d = p.1 as int;
        lemma_mp_path_kept(m, bn, t.nodes@, 0, rkey);
        t.lemma_mp_path_walk(0, rkey);
        let s = bn[l as int].get_base() as int;
        assert(forall|x: int| 0 <= x < orig.len() ==> orig[x] != END_MARKER) by {
            assert forall|x: int| 0 <= x < orig.len() implies orig[x] != END_MARKER by {
                if orig[x] == END_MARKER {
                    assert(END_MARKER as u32 == 0);
                    assert(keys[i][x] as u32 as int == 0);
                    assert(occurs(keys, 0));
                }
            }
        }
        let q = if d > 0 { t.walk(0, rkey.take(d - 1))->Some_0 } else { 0u32 };
        let k = if d > 0 { m.spec_get(rkey[d - 1])->Some_0 } else { 0u32 };
        if d > 0 {
            lemma_child_of_kept(bn, t.nodes@, q, k);
            assert(child_of(bn, q, k) == Some(l));
        }
        let bl = bn[l as int].base;
        lemma_bits(bl);
        if d == 0 {
            assert(l == 0);
            assert(bn[0].get_check() == 0x7fff_ffff);
        }
        assert(rec_applies(bn, sufs, s));
        if end_leaf(bn, l as int) {
            assert(d > 0);
            let bq = bn[q as int].base;
            lemma_bits(bq);
            lemma_xor_cancel(bq, k, 0);
            assert(k == 0);
            assert(m.spec_get(rkey[d - 1]) == m.spec_get(END_MARKER));
            assert(rkey[d - 1] == END_MARKER);
            assert(rkey == orig.push(END_MARKER));
            assert(d - 1 == orig.len());
            assert(rkey.take(d - 1) =~= orig);
            t.lemma_lookup_append(0, orig, Seq::empty());
            assert(orig + Seq::<char>::empty() =~= orig);
            assert(t.nodes@[q as int] == bn[q as int]);
            lemma_bits(bq);
            assert(t.nodes@[l as int].get_base() == sufs[s].value);
        } else {
            if d > orig.len() {
                assert(rkey == orig.push(END_MARKER));
                assert(d == orig.len() + 1);
                assert(rkey[d - 1] == END_MARKER);
                assert(k == 0);
                let bq = bn[q as int].base;
                lemma_bits(bq);
                assert(!bn[q as int].is_vacant()) by {
                    if bn[q as int].is_vacant() {
                        lemma_constants();
                    }
                }
                assert(end_leaf(bn, l as int));
            }
            assert(d <= orig.len());
            assert(rkey.take(d) =~= orig.take(d));
            assert(without_end(rkey.skip(d)) =~= orig.skip(d)) by {
                if rkey == orig.push(END_MARKER) {
                    assert(rkey.skip(d) =~= orig.skip(d).push(END_MARKER));
                } else {
                    if orig.skip(d).len() > 0 {
                        assert(orig.skip(d).last() == orig[orig.len() - 1]);
                    }
                }
            }
            t.lemma_lookup_append(0, orig.take(d), orig.skip(d));
            assert(orig.take(d) + orig.skip(d) =~= orig);
            assert(t.nodes@[l as int].is_leaf());
        }
    }
}

impl MpTrie {
    /// Following codes to a leaf is walking the characters read.
    pub proof fn lemma_mp_path_walk(&self, n: u32, key: Seq<char>)
        requires
            mp_path(self.mapper, self.nodes@, n, key) is Some,
        ensures
            ({
                let p = mp_path(self.mapper, self.nodes@, n, key)->Some_0;
                let d = p.1 as int;
                &&& d <= key.len()
                &&& (p.0 as int) < self.nodes@.len()
                &&& self.nodes@[p.0 as int].is_leaf()
                &&& self.walk(n, key.take(d)) == Some(p.0)
                &&& d > 0 ==> {
                    &&& self.mapper.spec_get(key[d - 1]) is Some
                    &&& self.walk(n, key.take(d - 1)) is Some
                    &&& child_of(self.nodes@, self.walk(n, key.take(d - 1))->Some_0, self.mapper.spec_get(key[d - 1])->Some_0) == Some(p.0)
                }
            }),
        decreases key.len(),
    {
        let p = mp_path(self.mapper, self.nodes@, n, key)->Some_0;
        if (n as int) < self.nodes@.len() && self.nodes@[n as int].is_leaf() {
            assert(key.take(0) =~= Seq::<char>::empty());
        } else {
            let k = self.mapper.spec_get(key[0])->Some_0;
            let c = child_of(self.nodes@, n, k)->Some_0;
            self.lemma_mp_path_walk(c, key.skip(1));
            let p2 = mp_path(self.mapper, self.nodes@, c, key.skip(1))->Some_0;
            let d2 = p2.1 as int;
            assert(p.1 as int == d2 + 1);
            assert(key.take(d2 + 1).skip(1) =~= key.skip(1).take(d2));
            assert(key.take(d2 + 1)[0] == key[0]);
            if d2 > 0 {
                assert(key.take(d2).skip(1) =~= key.skip(1).take(d2 - 1));
                assert(key.take(d2)[0] == key[0]);
                assert(key.skip(1)[d2 - 1] == key[d2]);
            } else {
                assert(key.take(0) =~= Seq::<char>::empty());
                assert(key.skip(1).take(0) =~= Seq::<char>::empty());
            }
        }
    }

    /// The code stored at byte `p` of the tails.
    pub open spec fn code_at(&self, p: int) -> u32 {
        le_value(self.tails@.subrange(p, p + self.code_size as int)) as u32
    }

    /// The value of the tail record at `t` if its characters are `rest`.
    pub open spec fn tail_value(&self, t: u32, rest: Seq<char>) -> Option<u32> {
        let tails = self.tails@;
        let cs = self.code_size as int;
        let vs = self.value_size as int;
        if (t as int) < tails.len() && 1 <= cs <= 4 && 1 <= vs <= 4 {
            let len = tails[t as int] as int;
            let vpos = t + 1 + len * cs;
            if vpos + vs <= tails.len() && rest.len() == len && forall|i: int|
                0 <= i < len ==> #[trigger] self.mapper.spec_get(rest[i]) == Some(self.code_at(t + 1 + i * cs)) {
                Some(le_value(tails.subrange(vpos, vpos + vs)) as u32)
            } else {
                None
            }
        } else {
            None
        }
    }

    /// The node reached from node `n` by the characters of `key`.
    pub open spec fn walk(&self, n: u32, key: Seq<char>) -> Option<u32>
        decreases key.len(),
    {
        if key.len() == 0 {
            Some(n)
        } else {
            match self.mapper.spec_get(key[0]) {
                Some(k) => match child_of(self.nodes@, n, k) {
                    Some(c) => self.walk(c, key.skip(1)),
                    None => None,
                },
                None => None,
            }
        }
    }

    /// The value of `key` looked up from node `n`: walk down until a leaf,
    /// then match the rest of the key against the leaf's tail.
    pub open spec fn lookup_from(&self, n: u32, key: Seq<char>) -> Option<u32>
        decreases key.len(),
    {
        if !((n as int) < self.nodes@.len()) {
            None
        } else if self.nodes@[n as int].is_leaf() {
            self.tail_value(self.nodes@[n as int].get_base(), key)
        } else if key.len() == 0 {
            if self.nodes@[n as int].has_leaf() {
                let l = self.nodes@[n as int].get_base() ^ END_CODE;
                if (l as int) < self.nodes@.len() {
                    Some(self.nodes@[l as int].get_base())
                } else {
                    None
                }
            } else {
                None
            }
        } else {
            match self.mapper.spec_get(key[0]) {
                Some(k) => match child_of(self.nodes@, n, k) {
                    Some(c) => self.lookup_from(c, key.skip(1)),
                    None => None,
                },
                None => None,
            }
        }
    }

    /// The value associated with `key`, if any.
    pub open spec fn lookup(&self, key: Seq<char>) -> Option<u32> {
        self.lookup_from(0, key)
    }

    /// The matches of keys that are prefixes of `h` of length `1..=j`, as
    /// pairs of a value and a length, by increasing length.
    pub open spec fn prefix_matches(&self, h: Seq<char>, j: nat) -> Seq<(u32, usize)>
        decreases j,
    {
        if j == 0 {
            Seq::empty()
        } else {
            let prev = self.prefix_matches(h, (j - 1) as nat);
            match self.lookup(h.take(j as int)) {
                Some(v) => prev.push((v, j as usize)),
                None => prev,
            }
        }
    }

    /// The bytes of the trie.
    pub open spec fn encode(&self) -> Seq<u8> {
        self.mapper.encode() + le_bytes(self.nodes@.len(), 4) + encode_nodes(self.nodes@) + le_bytes(
            self.tails@.len(),
            4,
        ) + self.tails@ + seq![self.code_size, self.value_size]
    }

    /// Number of bytes of the serialized trie.
    pub open spec fn io_len(&self) -> int {
        2 * (self.mapper.table@.len() as int) + 8 + 8 * (self.nodes@.len() as int) + 4 + (self.tails@.len() as int)
            + 4 + 2
    }

    /// Both tries hold the same table, alphabet size, nodes and tails.
    pub open spec fn same(&self, o: &MpTrie) -> bool {
        &&& self.mapper.table@ == o.mapper.table@
        &&& self.mapper.alphabet_size == o.mapper.alphabet_size
        &&& self.nodes@ == o.nodes@
        &&& self.tails@ == o.tails@
        &&& self.code_size == o.code_size
        &&& self.value_size == o.value_size
    }

    /// `src` is long enough for the lengths that it holds.
    pub open spec fn fits(src: Seq<u8>) -> bool {
        &&& CodeMapper::fits(src)
        &&& {
            let rest = src.skip(8 + 2 * (le_value(src.take(4)) as int));
            &&& 4 <= rest.len()
            &&& 4 + 8 * le_value(rest.take(4)) <= rest.len()
            &&& {
                let rest2 = rest.skip(4 + 8 * (le_value(rest.take(4)) as int));
                &&& 4 <= rest2.len()
                &&& 4 + le_value(rest2.take(4)) + 2 <= rest2.len()
            }
        }
    }

    /// What building a trie from keys `keys` with values `values` gives: the
    /// error of the first check that fails; otherwise a trie over the
    /// characters of the keys, unless a size passes its limit.
    pub open spec fn built(r: Result<MpTrie, CrawdadError>, keys: Seq<Seq<char>>, values: Seq<u32>) -> bool {
        &&& input_error(keys, values) matches Some(e) ==> r == Err::<MpTrie, CrawdadError>(e)
        &&& input_error(keys, values) is None ==> (r is Ok || r is Err && r->Err_0 is Scale)
        &&& input_error(keys, values) is None && r == Err::<MpTrie, CrawdadError>(CrawdadError::Scale(ScaleError { arg: "num_nodes", max: OFFSET_MASK }))
            ==> block_len_for(kinds(keys)) * (1 + key_total(keys)) > 0x7fff_ffff
        &&& input_error(keys, values) is None && 1 + key_total(keys) <= 0x7fff && (forall|i: int| 0 <= i < keys.len() ==> #[trigger] keys[i].len()
            <= 0xff) ==> r is Ok
        &&& r matches Ok(t) ==> {
            &&& maps_keys(t.mapper, keys)
            &&& 0 < t.nodes@.len() <= 0x7fff_ffff
            &&& t.mapper.table@.len() <= 0x11_0000
            &&& t.tails@.len() <= 0x7fff_ffff
            &&& forall|p: int| 0 <= p < t.nodes@.len() && #[trigger] t.nodes@[p].has_leaf() ==> {
                let e = (t.nodes@[p].base ^ 0) as int;
                &&& e < t.nodes@.len()
                &&& t.nodes@[e].get_check() == p
            }
            &&& 1 <= t.code_size <= 4
            &&& 1 <= t.value_size <= 4
            &&& forall|i: int| 0 <= i < keys.len() ==> #[trigger] t.lookup(keys[i]) == Some(values[i])
            &&& forall|key: Seq<char>| !key.contains(END_MARKER) && (#[trigger] t.lookup(key)) is Some ==> exists|i: int|
                0 <= i < keys.len() && keys[i] == key && Some(values[i]) == t.lookup(key)
        }
    }

    /// Creates a new trie from sorted keys; the key at position `i` gets
    /// value `i`.
    ///
    /// Besides the errors of the standard form, this fails with a Scale
    /// error when the rest of a key past its branching point is longer than
    /// 255 characters (a tail record stores its length in one byte), or when
    /// the tail pool would pass `OFFSET_MASK` bytes.
    pub fn from_keys(keys: &[&str]) -> (r: Result<Self, CrawdadError>)
        ensures
            keys@.len() > 0x8000_0000 ==> r == Err::<Self, CrawdadError>(
                CrawdadError::Scale(ScaleError { arg: "input value", max: OFFSET_MASK }),
            ),
            keys@.len() <= 0x8000_0000 ==> Self::built(r, list_keys(keys@), index_values(keys@.len())),
    {
        match Builder::new().minimal_prefix().build_from_keys(keys) {
            Ok(b) => {
                let ghost gb = b;
                let r = b.release_mptrie();
                proof {
                    if r is Ok {
                        lemma_mp_all_found(gb, r->Ok_0, list_keys(keys@), index_values(keys@.len()));
                    }
                    lemma_release_succeeds(gb, list_keys(keys@), index_values(keys@.len()));
                }
                r
            },
            Err(e) => Err(e),
        }
    }

    /// Creates a new trie from sorted key-value records.
    ///
    /// Besides the errors of the standard form, this fails with a Scale
    /// error when the rest of a key past its branching point is longer than
    /// 255 characters, or when the tail pool would pass `OFFSET_MASK` bytes.
    pub fn from_records(records: &[(&str, u32)]) -> (r: Result<Self, CrawdadError>)
        ensures
            Self::built(r, str_keys(records@), str_values(records@)),
    {
        match Builder::new().minimal_prefix().build_from_records(records) {
            Ok(b) => {
                let ghost gb = b;
                let r = b.release_mptrie();
                proof {
                    if r is Ok {
                        lemma_mp_all_found(gb, r->Ok_0, str_keys(records@), str_values(records@));
                    }
                    lemma_release_succeeds(gb, str_keys(records@), str_values(records@));
                }
                r
            },
            Err(e) => Err(e),
        }
    }

    /// Returns the value of the tail record at `t` if its characters are
    /// `key[start..]`.
    fn match_tail(&self, t: u32, key: &[char], start: usize) -> (r: Option<u32>)
        requires
            start <= key@.len(),
        ensures
            r == self.tail_value(t, key@.skip(start as int)),
    {
        let ghost rest = key@.skip(start as int);
        let tlen = self.tails.len();
        let cs = self.code_size as usize;
        let vs = self.value_size as usize;
        if (t as usize) >= tlen || cs < 1 || cs > 4 || vs < 1 || vs > 4 {
            return None;
        }
        let len = self.tails[t as usize] as usize;
        let pos0 = t as usize + 1;
        let klen = key.len();
        assert(len * cs <= 255 * 4) by (nonlinear_arith)
            requires len <= 255, cs <= 4;
        if pos0 > tlen || len * cs + vs > tlen - pos0 {
            proof {
                assert(!((t + 1 + len * cs) + vs <= tlen));
            }
            return None;
        }
        if key.len() - start != len {
            return None;
        }
        let mut i: usize = 0;
        let mut p: usize = pos0;
        while i < len
            invariant
                rest == key@.skip(start as int),
                rest.len() == len,
                start + len == key@.len(),
                klen == key@.len(),
                1 <= cs <= 4,
                cs == self.code_size,
                pos0 == t + 1,
                pos0 + len * cs + vs <= tlen,
                tlen == self.tails@.len(),
                i <= len,
                p == pos0 + i * cs,
                forall|k: int| 0 <= k < i ==> #[trigger] self.mapper.spec_get(rest[k]) == Some(self.code_at(t + 1 + k * cs)),
            decreases len - i,
        {
            proof {
                assert(p + cs <= pos0 + len * cs) by (nonlinear_arith)
                    requires p == pos0 + i * cs, i < len;
            }
            let code = unpack_u32(&self.tails[p..p + cs], cs as u8);
            proof {
                assert(self.tails@.subrange(p as int, p + cs).take(cs as int) =~= self.tails@.subrange(p as int, p + cs));
                assert(rest[i as int] == key@[start + i]);
            }
            match self.mapper.get(key[start + i]) {
                Some(k) => {
                    if k != code {
                        return None;
                    }
                },
                None => {
                    return None;
                },
            }
            proof {
                assert(p + cs == pos0 + (i + 1) * cs) by (nonlinear_arith)
                    requires p == pos0 + i * cs;
            }
            i = i + 1;
            p = p + cs;
        }
        let value = unpack_u32(&self.tails[p..p + vs], vs as u8);
        proof {
            assert(self.tails@.subrange(p as int, p + vs).take(vs as int) =~= self.tails@.subrange(p as int, p + vs));
        }
        Some(value)
    }

    /// Returns the value that node `n` carries through its end-marker child.
    fn get_leaf_value(&self, n: u32) -> (r: Option<u32>)
        requires
            (n as int) < self.nodes@.len(),
        ensures
            r == ({
                let l = self.nodes@[n as int].get_base() ^ END_CODE;
                if (l as int) < self.nodes@.len() {
                    Some(self.nodes@[l as int].get_base())
                } else {
                    None
                }
            }),
    {
        let l = self.nodes[n as usize].get_base() ^ END_CODE;
        if (l as usize) < self.nodes.len() {
            Some(self.nodes[l as usize].get_base())
        } else {
            None
        }
    }

    /// Returns a value associated with an input key if exists.
    pub fn exact_match(&self, key: &[char]) -> (r: Option<u32>)
        ensures
            key@.contains(END_MARKER) ==> r is None,
            !key@.contains(END_MARKER) ==> r == self.lookup(key@),
    {
        if contains_end_marker(key) {
            return None;
        }
        let mut node_idx: u32 = 0;
        let mut i: usize = 0;
        assert(key@.skip(0) =~= key@);
        loop
            invariant
                i <= key@.len(),
                !key@.contains(END_MARKER),
                self.lookup(key@) == self.lookup_from(node_idx, key@.skip(i as int)),
            decreases key@.len() - i,
        {
            if (node_idx as usize) >= self.nodes.len() {
                return None;
            }
            if self.nodes[node_idx as usize].is_leaf() {
                return self.match_tail(self.nodes[node_idx as usize].get_base(), key, i);
            }
            if i == key.len() {
                if self.nodes[node_idx as usize].has_leaf() {
                    return self.get_leaf_value(node_idx);
                }
                return None;
            }
            assert(key@.skip(i as int).skip(1) =~= key@.skip(i + 1));
            match self.mapper.get(key[i]) {
                Some(k) => match get_child_idx(&self.nodes, node_idx, k) {
                    Some(c) => node_idx = c,
                    None => return None,
                },
                None => return None,
            }
            i = i + 1;
        }
    }

    /// Returns the value of `key` looked up from node `n` once the whole key
    /// is read: a leaf's tail must be empty, an internal node needs its
    /// end-marker child.
    fn value_here(&self, n: u32, key: &[char]) -> (r: Option<u32>)
        requires
            (n as int) < self.nodes@.len(),
        ensures
            r == self.lookup_from(n, key@.skip(key@.len() as int)),
    {
        assert(key@.skip(key@.len() as int) =~= Seq::<char>::empty());
        let nd = self.nodes[n as usize];
        if nd.is_leaf() {
            self.match_tail(nd.get_base(), key, key.len())
        } else if nd.has_leaf() {
            self.get_leaf_value(n)
        } else {
            None
        }
    }

    /// Walking `a` to node `m` and then looking `b` up from `m` is looking
    /// `a + b` up.
    pub proof fn lemma_lookup_append(&self, n: u32, a: Seq<char>, b: Seq<char>)
        requires
            self.walk(n, a) is Some,
        ensures
            self.lookup_from(n, a + b) == self.lookup_from(self.walk(n, a)->Some_0, b),
        decreases a.len(),
    {
        if a.len() == 0 {
            assert(a + b =~= b);
        } else {
            assert((a + b).skip(1) =~= a.skip(1) + b);
            assert((a + b)[0] == a[0]);
            let k = self.mapper.spec_get(a[0])->Some_0;
            let c = child_of(self.nodes@, n, k)->Some_0;
            self.lemma_lookup_append(c, a.skip(1), b);
        }
    }

    /// Walking `a` then `b` is walking `a + b`.
    pub proof fn lemma_walk_append(&self, n: u32, a: Seq<char>, b: Seq<char>)
        ensures
            self.walk(n, a + b) == match self.walk(n, a) {
                Some(m) => self.walk(m, b),
                None => None,
            },
        decreases a.len(),
    {
        if a.len() == 0 {
            assert(a + b =~= b);
        } else {
            assert((a + b).skip(1) =~= a.skip(1) + b);
            assert((a + b)[0] == a[0]);
            match self.mapper.spec_get(a[0]) {
                Some(k) => match child_of(self.nodes@, n, k) {
                    Some(c) => self.lemma_walk_append(c, a.skip(1), b),
                    None => {},
                },
                None => {},
            }
        }
    }

    /// Lengths in `i+1..=j` without a match add no matches.
    pub proof fn lemma_no_matches(&self, h: Seq<char>, i: nat, j: nat)
        requires
            i <= j <= h.len(),
            forall|k: int| i < k <= j ==> #[trigger] self.lookup(h.take(k)) is None,
        ensures
            self.prefix_matches(h, j) == self.prefix_matches(h, i),
        decreases j,
    {
        if j > i {
            self.lemma_no_matches(h, i, (j - 1) as nat);
        }
    }

    /// Returns all occurrences of keys that start the haystack, as pairs of
    /// the associated value and the end position in characters.
    pub fn common_prefix_search(&self, haystack: &[char]) -> (r: Vec<(u32, usize)>)
        ensures
            r@ == self.prefix_matches(haystack@, haystack@.len()),
    {
        let ghost h = haystack@;
        let n = haystack.len();
        let mut matches: Vec<(u32, usize)> = Vec::new();
        let mut node_idx: u32 = 0;
        let mut i: usize = 0;
        assert(h.take(0) =~= Seq::<char>::empty());
        loop
            invariant
                h == haystack@,
                n == h.len(),
                i <= n,
                self.walk(0, h.take(i as int)) == Some(node_idx),
                matches@ == self.prefix_matches(h, i as nat),
            decreases n - i,
        {
            proof {
                assert forall|k: int| i <= k <= n implies #[trigger] self.lookup(h.take(k)) == self.lookup_from(node_idx, h.subrange(i as int, k)) by {
                    self.lemma_lookup_append(0, h.take(i as int), h.subrange(i as int, k));
                    assert(h.take(i as int) + h.subrange(i as int, k) =~= h.take(k));
                }
            }
            if (node_idx as usize) >= self.nodes.len() {
                proof {
                    self.lemma_no_matches(h, i as nat, n as nat);
                }
                return matches;
            }
            if self.nodes[node_idx as usize].is_leaf() {
                let t = self.nodes[node_idx as usize].get_base();
                if (t as usize) < self.tails.len() {
                    let len = self.tails[t as usize] as usize;
                    if len >= 1 && len <= n - i {
                        let ghost before = matches@;
                        if let Some(v) = self.match_tail(t, &haystack[0..i + len], i) {
                            matches.push((v, i + len));
                        }
                        proof {
                            assert(haystack@.subrange(0, i + len).skip(i as int) =~= h.subrange(i as int, i + len));
                            assert forall|k: int| i < k <= n && k != i + len implies #[trigger] self.lookup(h.take(k)) is None by {
                                assert(h.subrange(i as int, k).len() != len);
                            }
                            self.lemma_no_matches(h, i as nat, (i + len - 1) as nat);
                            self.lemma_no_matches(h, (i + len) as nat, n as nat);
                        }
                    } else {
                        proof {
                            assert forall|k: int| i < k <= n implies #[trigger] self.lookup(h.take(k)) is None by {
                                assert(h.subrange(i as int, k).len() != len);
                            }
                            self.lemma_no_matches(h, i as nat, n as nat);
                        }
                    }
                } else {
                    proof {
                        self.lemma_no_matches(h, i as nat, n as nat);
                    }
                }
                return matches;
            }
            if i == n {
                return matches;
            }
            let step = match self.mapper.get(haystack[i]) {
                Some(k) => get_child_idx(&self.nodes, node_idx, k),
                None => None,
            };
            proof {
                assert forall|k: int| i < k <= n implies #[trigger] self.lookup_from(node_idx, h.subrange(i as int, k)) == match step {
                    Some(c) => self.lookup_from(c, h.subrange(i + 1, k)),
                    None => None,
                } by {
                    assert(h.subrange(i as int, k)[0] == h[i as int]);
                    assert(h.subrange(i as int, k).skip(1) =~= h.subrange(i + 1, k));
                }
                self.lemma_walk_append(0, h.take(i as int), h.subrange(i as int, i + 1));
                assert(h.take(i as int) + h.subrange(i as int, i + 1) =~= h.take(i + 1));
                assert(h.subrange(i as int, i + 1).skip(1) =~= Seq::<char>::empty());
                assert(h.subrange(i as int, i + 1)[0] == h[i as int]);
                if let Some(c) = step {
                    assert(self.walk(c, Seq::<char>::empty()) == Some(c));
                }
                assert(self.walk(node_idx, h.subrange(i as int, i + 1)) == step);
            }
            match step {
                Some(c) => {
                    node_idx = c;
                    i = i + 1;
                    proof {
                        assert(h.subrange(i as int, i as int) =~= Seq::<char>::empty());
                        assert(haystack@.subrange(0, i as int).skip(i as int) =~= Seq::<char>::empty());
                    }
                    if (node_idx as usize) < self.nodes.len() {
                        if let Some(v) = self.value_here(node_idx, &haystack[0..i]) {
                            matches.push((v, i));
                        }
                    }
                },
                None => {
                    proof {
                        self.lemma_no_matches(h, i as nat, n as nat);
                    }
                    return matches;
                },
            }
        }
    }

    /// Maps each character of `text` to its code (`None` where it has none).
    pub fn map_text(&self, text: &[char], mapped: &mut Vec<Option<u32>>)
        ensures
            final(mapped)@ == map_codes(self.mapper, text@),
    {
        mapped.clear();
        let mut i: usize = 0;
        while i < text.len()
            invariant
                i <= text@.len(),
                mapped@ == map_codes(self.mapper, text@.take(i as int)),
            decreases text@.len() - i,
        {
            mapped.push(self.mapper.get(text[i]));
            assert(map_codes(self.mapper, text@.take(i + 1)) =~= mapped@);
            i = i + 1;
        }
        assert(text@.take(text@.len() as int) =~= text@);
    }

    /// Returns the characters and the value of the tail record at `t`, if
    /// every code in it has a character in `inv`.
    fn decode_tail(&self, t: u32, inv: &Vec<Option<char>>) -> (r: Option<(Vec<char>, u32)>)
        requires
            forall|k: int| 0 <= k < inv@.len() && #[trigger] inv@[k] is Some ==> self.mapper.spec_get(inv@[k]->Some_0) == Some(k as u32),
        ensures
            r matches Some(p) ==> self.tail_value(t, p.0@) == Some(p.1),
    {
        let tlen = self.tails.len();
        let cs = self.code_size as usize;
        let vs = self.value_size as usize;
        if (t as usize) >= tlen || cs < 1 || cs > 4 || vs < 1 || vs > 4 {
            return None;
        }
        let len = self.tails[t as usize] as usize;
        let pos0 = t as usize + 1;
        assert(len * cs <= 255 * 4) by (nonlinear_arith)
            requires len <= 255, cs <= 4;
        if pos0 > tlen || len * cs + vs > tlen - pos0 {
            return None;
        }
        let mut chars: Vec<char> = Vec::new();
        let mut i: usize = 0;
        let mut p: usize = pos0;
        while i < len
            invariant
                1 <= cs <= 4,
                cs == self.code_size,
                pos0 == t + 1,
                pos0 + len * cs + vs <= tlen,
                tlen == self.tails@.len(),
                i <= len,
                chars@.len() == i,
                p == pos0 + i * cs,
                forall|k: int| 0 <= k < inv@.len() && #[trigger] inv@[k] is Some ==> self.mapper.spec_get(inv@[k]->Some_0) == Some(k as u32),
                forall|k: int| 0 <= k < i ==> #[trigger] self.mapper.spec_get(chars@[k]) == Some(self.code_at(t + 1 + k * cs)),
            decreases len - i,
        {
            proof {
                assert(p + cs <= pos0 + len * cs) by (nonlinear_arith)
                    requires p == pos0 + i * cs, i < len;
            }
            let code = unpack_u32(&self.tails[p..p + cs], cs as u8);
            proof {
                assert(self.tails@.subrange(p as int, p + cs).take(cs as int) =~= self.tails@.subrange(p as int, p + cs));
            }
            if (code as usize) >= inv.len() {
                return None;
            }
            match inv[code as usize] {
                Some(ch) => chars.push(ch),
                None => return None,
            }
            proof {
                assert(p + cs == pos0 + (i + 1) * cs) by (nonlinear_arith)
                    requires p == pos0 + i * cs;
            }
            i = i + 1;
            p = p + cs;
        }
        let value = unpack_u32(&self.tails[p..p + vs], vs as u8);
        proof {
            assert(self.tails@.subrange(p as int, p + vs).take(vs as int) =~= self.tails@.subrange(p as int, p + vs));
        }
        Some((chars, value))
    }

    /// Returns the records of the trie: each key, as characters, with its
    /// value.
    pub fn record_iter(&self) -> (r: Vec<(Vec<char>, u32)>)
        requires
            self.mapper.table@.len() <= u32::MAX,
        ensures
            self.all_found(r@),
    {
        let inv = self.mapper.inverse();
        let mut key: Vec<char> = Vec::new();
        let mut out: Vec<(Vec<char>, u32)> = Vec::new();
        assert(self.walk(0, key@) == Some(0u32));
        self.collect_records(&inv, 0, &mut key, &mut out, self.nodes.len());
        out
    }

    /// Every key of `records` looks up to its value.
    pub open spec fn all_found(&self, records: Seq<(Vec<char>, u32)>) -> bool {
        forall|i: int| 0 <= i < records.len() ==> self.lookup(#[trigger] records[i].0@) == Some(records[i].1)
    }

    /// Appends a record whose key looks up to its value.
    fn push_record(&self, out: &mut Vec<(Vec<char>, u32)>, key: Vec<char>, v: u32)
        requires
            self.lookup(key@) == Some(v),
            self.all_found(old(out)@),
        ensures
            self.all_found(final(out)@),
    {
        out.push((key, v));
        assert forall|i: int| 0 <= i < out@.len() implies self.lookup(#[trigger] out@[i].0@) == Some(out@[i].1) by {
            if i < old(out)@.len() {
                assert(out@[i] == old(out)@[i]);
            }
        }
        assert(self.all_found(out@));
    }

    /// Appends the records below node `node`, which `key` leads to, to
    /// `out`, going at most `budget` levels down.
    fn collect_records(
        &self,
        inv: &Vec<Option<char>>,
        node: u32,
        key: &mut Vec<char>,
        out: &mut Vec<(Vec<char>, u32)>,
        budget: usize,
    )
        requires
            self.walk(0, old(key)@) == Some(node),
            inv@.len() <= u32::MAX,
            forall|k: int| 0 <= k < inv@.len() && #[trigger] inv@[k] is Some ==> self.mapper.spec_get(inv@[k]->Some_0) == Some(k as u32),
            self.all_found(old(out)@),
        ensures
            final(key)@ == old(key)@,
            self.all_found(final(out)@),
        decreases budget,
    {
        if (node as usize) >= self.nodes.len() {
            return;
        }
        let nd = self.nodes[node as usize];
        if nd.is_leaf() {
            if let Some((rest, v)) = self.decode_tail(nd.get_base(), inv) {
                let full = concat_chars(key, &rest);
                proof {
                    self.lemma_lookup_append(0, key@, rest@);
                    assert(self.lookup_from(node, rest@) == self.tail_value(nd.get_base(), rest@));
                }
                self.push_record(out, full, v);
            }
            return;
        }
        if nd.has_leaf() {
            if let Some(v) = self.get_leaf_value(node) {
                let copy = copy_chars(key);
                proof {
                    self.lemma_lookup_append(0, key@, Seq::empty());
                    assert(key@ + Seq::<char>::empty() =~= key@);
                }
                self.push_record(out, copy, v);
            }
        }
        if budget == 0 {
            return;
        }
        let mut k: usize = 1;
        while k < inv.len()
            invariant
                self.walk(0, key@) == Some(node),
                key@ == old(key)@,
                forall|k: int| 0 <= k < inv@.len() && #[trigger] inv@[k] is Some ==> self.mapper.spec_get(inv@[k]->Some_0) == Some(k as u32),
                self.all_found(out@),
                inv@.len() <= u32::MAX,
                budget > 0,
            decreases inv@.len() - k,
        {
            if let Some(ch) = inv[k] {
                if let Some(c) = get_child_idx(&self.nodes, node, k as u32) {
                    let ghost before = key@;
                    key.push(ch);
                    proof {
                        self.lemma_walk_append(0, before, seq![ch]);
                        assert(seq![ch].skip(1) =~= Seq::<char>::empty());
                        assert(self.walk(c, Seq::<char>::empty()) == Some(c));
                        assert(key@ =~= before + seq![ch]);
                    }
                    self.collect_records(inv, c, key, out, budget - 1);
                    key.pop();
                    assert(key@ =~= before);
                }
            }
            k = k + 1;
        }
    }

    /// Serializes the data structure into a [`Vec`].
    pub fn serialize_to_vec(&self) -> (r: Vec<u8>)
        requires
            self.mapper.table@.len() <= 0xffff_ffff,
            self.nodes@.len() <= 0xffff_ffff,
            self.tails@.len() <= 0xffff_ffff,
        ensures
            r@ == self.encode(),
    {
        let mut dst: Vec<u8> = Vec::new();
        self.mapper.serialize_into_vec(&mut dst);
        pack_u32(&mut dst, self.nodes.len() as u32, 4);
        serialize_nodes(&self.nodes, &mut dst);
        pack_u32(&mut dst, self.tails.len() as u32, 4);
        let mut i: usize = 0;
        let ghost start = dst@;
        while i < self.tails.len()
            invariant
                i <= self.tails@.len(),
                dst@ == start + self.tails@.take(i as int),
            decreases self.tails@.len() - i,
        {
            dst.push(self.tails[i]);
            assert(self.tails@.take(i + 1) =~= self.tails@.take(i as int).push(self.tails@[i as int]));
            i = i + 1;
        }
        assert(self.tails@.take(self.tails@.len() as int) =~= self.tails@);
        dst.push(self.code_size);
        dst.push(self.value_size);
        assert(dst@ =~= self.encode());
        dst
    }

    /// Deserializes the data structure from a given byte slice; returns it
    /// with the bytes that follow it.
    #[verifier::rlimit(100)]
    #[verifier::spinoff_prover]
    pub fn deserialize_from_slice(source: &[u8]) -> (r: (Self, &[u8]))
        requires
            Self::fits(source@),
        ensures
            forall|t: MpTrie, rest: Seq<u8>|
                source@ == t.encode() + rest && t.mapper.table@.len() <= 0xffff_ffff && t.nodes@.len()
                    <= 0xffff_ffff && t.tails@.len() <= 0xffff_ffff ==> r.0.same(&t) && r.1@ == rest,
    {
        let (mapper, rest) = CodeMapper::deserialize_from_slice(source);
        let len = unpack_u32(rest, 4) as usize;
        let body = &rest[4..rest.len()];
        let nodes = deserialize_nodes(body, len);
        let rest2 = &body[8 * len..body.len()];
        assert(rest2@ =~= rest@.skip(4 + 8 * (len as int)));
        let tlen = unpack_u32(rest2, 4) as usize;
        let r2len = rest2.len();
        let mut tails: Vec<u8> = Vec::new();
        let mut i: usize = 0;
        while i < tlen
            invariant
                4 + tlen + 2 <= rest2@.len(),
                r2len == rest2@.len(),
                i <= tlen,
                tails@ == rest2@.subrange(4, 4 + i),
            decreases tlen - i,
        {
            tails.push(rest2[4 + i]);
            assert(tails@ =~= rest2@.subrange(4, 4 + i + 1));
            i = i + 1;
        }
        let code_size = rest2[4 + tlen];
        let value_size = rest2[4 + tlen + 1];
        let remain = &rest2[4 + tlen + 2..rest2.len()];
        let r = MpTrie { mapper, nodes, tails, code_size, value_size };
        proof {
            assert forall|t: MpTrie, tail: Seq<u8>|
                source@ == t.encode() + tail && t.mapper.table@.len() <= 0xffff_ffff && t.nodes@.len()
                    <= 0xffff_ffff && t.tails@.len() <= 0xffff_ffff implies r.same(&t) && remain@ == tail by {
                lemma_mp_layout(t, tail);
                let after = source@.skip(8 + 2 * (t.mapper.table@.len() as int));
                assert(rest@ == after);
                assert(body@ =~= after.skip(4));
                let after_nodes = after.skip(4 + 8 * (t.nodes@.len() as int));
                assert(rest2@ =~= after_nodes);
                assert(tails@ =~= t.tails@);
                assert(remain@ =~= after_nodes.skip(6 + (t.tails@.len() as int)));
            }
        }
        (r, remain)
    }

    /// Returns the total amount of heap used by this automaton in bytes.
    pub fn heap_bytes(&self) -> (r: usize)
        requires
            self.io_len() <= usize::MAX,
        ensures
            r == 2 * self.mapper.table@.len() + 8 * self.nodes@.len() + self.tails@.len(),
    {
        self.mapper.heap_bytes() + self.nodes.len() * 8 + self.tails.len()
    }

    /// Returns the total amount of bytes to serialize the data structure.
    pub fn io_bytes(&self) -> (r: usize)
        requires
            self.io_len() <= usize::MAX,
        ensures
            r == self.io_len(),
            r == self.encode().len(),
    {
        proof {
            lemma_encode_nodes_len(self.nodes@);
        }
        self.mapper.io_bytes() + self.nodes.len() * Node::io_bytes() + 4 + self.tails.len() + 4 + 2
    }

    /// Returns the number of reserved elements.
    pub fn num_elems(&self) -> (r: usize)
        ensures
            r == self.nodes@.len(),
    {
        self.nodes.len()
    }

    /// Returns the number of vacant elements.
    pub fn num_vacants(&self) -> (r: usize)
        ensures
            r == count_vacant(self.nodes@),
    {
        num_vacant_nodes(&self.nodes)
    }
}

} // verus!

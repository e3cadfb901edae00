//! A standard trie form that often provides the fastest queries.
use vstd::prelude::*;

use crate::bytes::{le_bytes, le_value, lemma_le_round_trip_fits, lemma_scale_values, pack_u32, unpack_u32};
use crate::mapper::{CodeMapper, decode_codes, lemma_mapper_round_trip};
use crate::node::{Node, lemma_bits, lemma_constants, lemma_node_round_trip, lemma_xor_cancel};
use crate::utils::contains_end_marker;
use crate::builder::{Builder, arr_lookup, block_len_for, end_flags_ok, finished, linked, maps_keys};
use crate::keys::{index_values, kinds, list_keys, occurs, str_keys, str_values, values_of};
use crate::errors::{CrawdadError, ScaleError};
use crate::keys::{input_error, key_total};
use crate::{END_CODE, END_MARKER, OFFSET_MASK};

verus! {

/// The child of node `p` labelled with code `k`, if `p` has one.
pub open spec fn child_of(nodes: Seq<Node>, p: u32, k: u32) -> Option<u32> {
    if (p as int) < nodes.len() && !nodes[p as int].is_leaf() {
        let c = nodes[p as int].get_base() ^ k;
        if (c as int) < nodes.len() && nodes[c as int].get_check() == p {
            Some(c)
        } else {
            None
        }
    } else {
        None
    }
}

/// Returns the child of node `p` labelled with code `k`, if `p` has one.
pub(crate) fn get_child_idx(nodes: &Vec<Node>, p: u32, k: u32) -> (r: Option<u32>)
    ensures
        r == child_of(nodes@, p, k),
{
    if (p as usize) < nodes.len() && !nodes[p as usize].is_leaf() {
        let c = nodes[p as usize].get_base() ^ k;
        if (c as usize) < nodes.len() && nodes[c as usize].get_check() == p {
            return Some(c);
        }
    }
    None
}

/// Returns a copy of `key`.
pub(crate) fn copy_chars(key: &Vec<char>) -> (r: Vec<char>)
    ensures
        r@ == key@,
{
    let mut r: Vec<char> = Vec::new();
    let mut i: usize = 0;
    while i < key.len()
        invariant
            i <= key@.len(),
            r@ == key@.take(i as int),
        decreases key@.len() - i,
    {
        r.push(key[i]);
        assert(key@.take(i + 1) =~= key@.take(i as int).push(key@[i as int]));
        i = i + 1;
    }
    assert(key@.take(key@.len() as int) =~= key@);
    r
}

/// The code of each character of `text`.
pub open spec fn map_codes(m: CodeMapper, text: Seq<char>) -> Seq<Option<u32>> {
    Seq::new(text.len(), |i: int| m.spec_get(text[i]))
}

/// The bytes of a node array, eight per node.
pub open spec fn encode_nodes(s: Seq<Node>) -> Seq<u8>
    decreases s.len(),
{
    if s.len() == 0 {
        Seq::empty()
    } else {
        encode_nodes(s.drop_last()) + s.last().encode()
    }
}

/// The first `n` nodes in `s`, eight bytes each.
pub open spec fn decode_nodes(s: Seq<u8>, n: nat) -> Seq<Node> {
    Seq::new(
        n,
        |i: int|
            Node {
                base: le_value(s.subrange(8 * i, 8 * i + 4)) as u32,
                check: le_value(s.subrange(8 * i + 4, 8 * i + 8)) as u32,
            },
    )
}

/// Number of vacant nodes in `s`.
pub open spec fn count_vacant(s: Seq<Node>) -> nat
    decreases s.len(),
{
    if s.len() == 0 {
        0
    } else {
        count_vacant(s.drop_last()) + if s.last().is_vacant() { 1nat } else { 0nat }
    }
}

pub proof fn lemma_encode_nodes_len(s: Seq<Node>)
    ensures
        encode_nodes(s).len() == 8 * s.len(),
    decreases s.len(),
{
    if s.len() > 0 {
        lemma_encode_nodes_len(s.drop_last());
    }
}

/// Each node can be read back at its place in the bytes.
pub proof fn lemma_encode_nodes_at(s: Seq<Node>, i: int)
    requires
        0 <= i < s.len(),
    ensures
        encode_nodes(s).subrange(8 * i, 8 * i + 8) == s[i].encode(),
    decreases s.len(),
{
    lemma_encode_nodes_len(s.drop_last());
    if i < s.len() - 1 {
        lemma_encode_nodes_at(s.drop_last(), i);
        assert(encode_nodes(s).subrange(8 * i, 8 * i + 8) =~= encode_nodes(s.drop_last()).subrange(
            8 * i,
            8 * i + 8,
        ));
    } else {
        assert(encode_nodes(s).subrange(8 * i, 8 * i + 8) =~= s.last().encode());
    }
}

/// Decoding the bytes of a node array gives the array back.
pub proof fn lemma_nodes_round_trip(s: Seq<Node>, rest: Seq<u8>)
    ensures
        decode_nodes(encode_nodes(s) + rest, s.len()) == s,
{
    lemma_encode_nodes_len(s);
    let b = encode_nodes(s) + rest;
    assert forall|i: int| 0 <= i < s.len() implies #[trigger] decode_nodes(b, s.len())[i] == s[i] by {
        lemma_encode_nodes_at(s, i);
        let e = b.subrange(8 * i, 8 * i + 8);
        assert(e =~= s[i].encode());
        lemma_node_round_trip(s[i], Seq::empty());
        assert(s[i].encode() + Seq::<u8>::empty() =~= s[i].encode());
        assert(b.subrange(8 * i, 8 * i + 4) =~= e.take(4));
        assert(b.subrange(8 * i + 4, 8 * i + 8) =~= e.subrange(4, 8));
    }
    assert(decode_nodes(b, s.len()) =~= s);
}

/// Appends the bytes of `nodes` to `dst`.
pub(crate) fn serialize_nodes(nodes: &Vec<Node>, dst: &mut Vec<u8>)
    ensures
        final(dst)@ == old(dst)@ + encode_nodes(nodes@),
{
    let ghost start = old(dst)@;
    let mut i: usize = 0;
    assert(nodes@.take(0) =~= Seq::<Node>::empty());
    assert(dst@ =~= start + encode_nodes(nodes@.take(0)));
    while i < nodes.len()
        invariant
            i <= nodes@.len(),
            dst@ == start + encode_nodes(nodes@.take(i as int)),
        decreases nodes@.len() - i,
    {
        nodes[i].serialize(dst);
        assert(nodes@.take(i + 1).drop_last() =~= nodes@.take(i as int));
        assert(dst@ =~= start + encode_nodes(nodes@.take(i + 1)));
        i = i + 1;
    }
    assert(nodes@.take(nodes@.len() as int) =~= nodes@);
}

/// Reads `n` nodes from the start of `src`.
pub(crate) fn deserialize_nodes(src: &[u8], n: usize) -> (r: Vec<Node>)
    requires
        8 * n <= src@.len(),
    ensures
        r@ == decode_nodes(src@, n as nat),
{
    let mut nodes: Vec<Node> = Vec::with_capacity(n);
    let mut pos: usize = 0;
    let src_len = src.len();
    while nodes.len() < n
        invariant
            8 * n <= src@.len(),
            src_len == src@.len(),
            nodes@.len() <= n,
            pos == 8 * nodes@.len(),
            nodes@ == decode_nodes(src@, nodes@.len()),
        decreases n - nodes@.len(),
    {
        let node = Node::deserialize(&src[pos..pos + 8]);
        proof {
            let e = src@.subrange(pos as int, pos + 8);
            assert(e.take(4) =~= src@.subrange(pos as int, pos + 4));
            assert(e.subrange(4, 8) =~= src@.subrange(pos + 4, pos + 8));
        }
        nodes.push(node);
        assert(nodes@ =~= decode_nodes(src@, nodes@.len()));
        pos = pos + 8;
    }
    nodes
}

/// Returns how many nodes of `nodes` are vacant.
pub(crate) fn num_vacant_nodes(nodes: &Vec<Node>) -> (r: usize)
    ensures
        r == count_vacant(nodes@),
{
    let mut n: usize = 0;
    let mut i: usize = 0;
    assert(nodes@.take(0) =~= Seq::<Node>::empty());
    while i < nodes.len()
        invariant
            i <= nodes@.len(),
            n <= i,
            n == count_vacant(nodes@.take(i as int)),
        decreases nodes@.len() - i,
    {
        assert(nodes@.take(i + 1).drop_last() =~= nodes@.take(i as int));
        if nodes[i].is_vacant() {
            n = n + 1;
        }
        i = i + 1;
    }
    assert(nodes@.take(nodes@.len() as int) =~= nodes@);
    n
}

/// A standard trie form that often provides the fastest queries.
#[derive(Debug, PartialEq, Eq)]
pub struct Trie {
    /// Codes of the characters.
    pub mapper: CodeMapper,
    /// The double array.
    pub nodes: Vec<Node>,
}

impl Trie {
    /// The node reached from node `n` by the characters of `key`.
    pub open spec fn walk(&self, n: u32, key: Seq<char>) -> Option<u32>
        decreases key.len(),
    {
        if key.len() == 0 {
            Some(n)
        } else {
            match self.mapper.spec_get(key[0]) {
                Some(k) => match child_of(self.nodes@, n, k) {
                    Some(c) => self.walk(c, key.skip(1)),
                    None => None,
                },
                None => None,
            }
        }
    }

    /// The value that node `n` carries, itself or through its end-marker child.
    pub open spec fn value_of(&self, n: u32) -> Option<u32> {
        if (n as int) < self.nodes@.len() {
            let nd = self.nodes@[n as int];
            if nd.is_leaf() {
                Some(nd.get_base())
            } else if nd.has_leaf() {
                let l = nd.get_base() ^ END_CODE;
                if (l as int) < self.nodes@.len() {
                    Some(self.nodes@[l as int].get_base())
                } else {
                    None
                }
            } else {
                None
            }
        } else {
            None
        }
    }

    /// The value associated with `key`, if any.
    pub open spec fn lookup(&self, key: Seq<char>) -> Option<u32> {
        match self.walk(0, key) {
            Some(n) => self.value_of(n),
            None => None,
        }
    }

    /// The matches of keys that are prefixes of `h` of length `1..=j`, as
    /// pairs of a value and a length, by increasing length.
    pub open spec fn prefix_matches(&self, h: Seq<char>, j: nat) -> Seq<(u32, usize)>
        decreases j,
    {
        if j == 0 {
            Seq::empty()
        } else {
            let prev = self.prefix_matches(h, (j - 1) as nat);
            match self.lookup(h.take(j as int)) {
                Some(v) => prev.push((v, j as usize)),
                None => prev,
            }
        }
    }

    /// The bytes of the trie.
    pub open spec fn encode(&self) -> Seq<u8> {
        self.mapper.encode() + le_bytes(self.nodes@.len(), 4) + encode_nodes(self.nodes@)
    }

    /// Number of bytes of the serialized trie.
    pub open spec fn io_len(&self) -> int {
        2 * (self.mapper.table@.len() as int) + 8 + 8 * (self.nodes@.len() as int) + 4
    }

    /// Both tries hold the same table, alphabet size and nodes.
    pub open spec fn same(&self, o: &Trie) -> bool {
        &&& self.mapper.table@ == o.mapper.table@
        &&& self.mapper.alphabet_size == o.mapper.alphabet_size
        &&& self.nodes@ == o.nodes@
    }

    /// `src` is long enough for the lengths that it holds.
    pub open spec fn fits(src: Seq<u8>) -> bool {
        &&& CodeMapper::fits(src)
        &&& {
            let rest = src.skip(8 + 2 * (le_value(src.take(4)) as int));
            &&& 4 <= rest.len()
            &&& 4 + 8 * le_value(rest.take(4)) <= rest.len()
        }
    }

    /// What building a trie from keys `keys` with values `values` gives: the
    /// error of the first check that fails; otherwise a trie over the
    /// characters of the keys, unless the number of nodes passes its limit.
    pub open spec fn built(r: Result<Trie, CrawdadError>, keys: Seq<Seq<char>>, values: Seq<u32>) -> bool {
        &&& input_error(keys, values) matches Some(e) ==> r == Err::<Trie, CrawdadError>(e)
        &&& input_error(keys, values) is None ==> (r is Ok || r == Err::<Trie, CrawdadError>(
            CrawdadError::Scale(ScaleError { arg: "num_nodes", max: OFFSET_MASK }),
        ))
        &&& input_error(keys, values) is None && 1 + key_total(keys) <= 0x7fff ==> r is Ok
        &&& input_error(keys, values) is None && r is Err ==> block_len_for(kinds(keys)) * (1 + key_total(keys)) > 0x7fff_ffff
        &&& r matches Ok(t) ==> {
            &&& maps_keys(t.mapper, keys)
            &&& 0 < t.nodes@.len() <= 0x7fff_ffff
            &&& t.mapper.table@.len() <= 0x11_0000
            &&& end_flags_ok(t.nodes@)
            &&& forall|p: int| 0 <= p < t.nodes@.len() && #[trigger] t.nodes@[p].has_leaf() ==> {
                let e = (t.nodes@[p].base ^ 0) as int;
                &&& e < t.nodes@.len()
                &&& t.nodes@[e].get_check() == p
            }
            &&& forall|i: int| 0 <= i < keys.len() ==> #[trigger] t.lookup(keys[i]) == Some(values[i])
            &&& forall|key: Seq<char>| !key.contains(END_MARKER) && (#[trigger] t.lookup(key)) is Some ==> exists|i: int|
                0 <= i < keys.len() && keys[i] == key && Some(values[i]) == t.lookup(key)
        }
    }

    /// From a spelled node, walking `u` reaches a node that spells what the
    /// first spelled, followed by `u`.
    pub proof fn lemma_walk_spells(&self, b: Builder, keys: Seq<Seq<char>>, values: Seq<u32>, y: u32, u: Seq<char>)
        requires
            Builder::built(Ok(b), false, keys, values),
            self.mapper == b.mapper,
            self.nodes@ == b.nodes@,
            (y as int) < self.nodes@.len(),
            b.spell@.contains_key(y as int),
            0 <= b.spell@[y as int].0 < b.records@.len(),
            self.walk(y, u) is Some,
        ensures
            ({
                let x = self.walk(y, u)->Some_0 as int;
                let sy = b.spell@[y as int];
                let sx = b.spell@[x];
                &&& x < self.nodes@.len()
                &&& b.spell@.contains_key(x)
                &&& (x != y ==> !self.nodes@[x].is_vacant())
                &&& sx.1 == sy.1 + u.len()
                &&& b.records@[sx.0].key@.take(sx.1) == b.records@[sy.0].key@.take(sy.1) + u
            }),
        decreases u.len(),
    {
        let nodes = self.nodes@;
        let sp = b.spell@;
        let recs = b.records@;
        if u.len() == 0 {
            assert(b.records@[sp[y as int].0].key@.take(sp[y as int].1) + u =~= b.records@[sp[y as int].0].key@.take(sp[y as int].1));
        } else {
            let k = self.mapper.spec_get(u[0])->Some_0;
            let z = child_of(nodes, y, k)->Some_0;
            let zi = z as int;
            assert(nodes[zi].get_check() == y);
            let vc = nodes[zi].check;
            lemma_constants();
            assert(!nodes[zi].is_vacant());
            assert(zi != 0) by {
                if zi == 0 {
                    assert(nodes[0].get_check() == 0x7fff_ffff);
                }
            }
            assert(linked(b.mapper, recs, nodes, sp, zi));
            assert(finished(false, recs, b.suffixes@, nodes, sp, zi));
            let iz = sp[zi].0;
            let dz = sp[zi].1;
            let kz = b.mapper.spec_get(recs[iz].key@[dz - 1])->Some_0;
            let bb = nodes[y as int].get_base();
            lemma_xor_cancel(bb, kz, k);
            assert(kz == k);
            assert(b.mapper.spec_get(recs[iz].key@[dz - 1]) == b.mapper.spec_get(u[0]));
            assert(recs[iz].key@[dz - 1] == u[0]);
            assert(recs[iz].key@.take(dz) =~= recs[iz].key@.take(dz - 1).push(u[0]));
            self.lemma_walk_spells(b, keys, values, z, u.skip(1));
            let sy = sp[y as int];
            assert(recs[sy.0].key@.take(sy.1) + u =~= recs[sy.0].key@.take(sy.1).push(u[0]) + u.skip(1));
        }
    }

    /// A key that looks up to a value in a built trie is a given key with
    /// that value.
    pub proof fn lemma_only_stored(&self, b: Builder, keys: Seq<Seq<char>>, values: Seq<u32>, key: Seq<char>, v: u32)
        requires
            Builder::built(Ok(b), false, keys, values),
            input_error(keys, values) is None,
            self.mapper == b.mapper,
            self.nodes@ == b.nodes@,
            !key.contains(END_MARKER),
            self.lookup(key) == Some(v),
        ensures
            exists|i: int| 0 <= i < keys.len() && keys[i] == key && values[i] == v,
    {
        let nodes = self.nodes@;
        let sp = b.spell@;
        let recs = b.records@;
        assert(keys.len() > 0);
        self.lemma_walk_spells(b, keys, values, 0, key);
        let x = self.walk(0, key)->Some_0 as int;
        let ix = sp[x].0;
        assert(recs[0].key@.take(0) + key =~= key);
        assert(recs[ix].key@.take(key.len() as int) == key);
        assert(x == 0 || !nodes[x].is_vacant());
        assert(finished(false, recs, b.suffixes@, nodes, sp, x));
        assert(recs[ix].key@ == keys[ix] || recs[ix].key@ == keys[ix].push(END_MARKER));
        assert(values_of(recs)[ix] == values[ix]);
        assert forall|i: int, j: int| 0 <= i < keys.len() && 0 <= j < keys[i].len() implies keys[i][j] != END_MARKER by {
            if keys[i][j] == END_MARKER {
                assert(END_MARKER as u32 == 0);
                assert(keys[i][j] as u32 as int == 0);
                assert(occurs(keys, 0));
            }
        }
        if nodes[x].is_leaf() {
            assert(key =~= recs[ix].key@);
            if recs[ix].key@ == keys[ix].push(END_MARKER) {
                assert(key[key.len() - 1] == END_MARKER);
                assert(key.contains(END_MARKER));
            }
            assert(keys[ix] == key);
        } else {
            assert(nodes[x].has_leaf());
            let e = (nodes[x].base ^ 0) as int;
            let bx = nodes[x].base;
            lemma_bits(bx);
            assert(nodes[e].get_check() == x);
            lemma_constants();
            assert(!nodes[e].is_vacant());
            assert(e != 0) by {
                if e == 0 {
                    assert(nodes[0].get_check() == 0x7fff_ffff);
                }
            }
            assert(linked(b.mapper, recs, nodes, sp, e));
            let ie = sp[e].0;
            let de = sp[e].1;
            let ke = b.mapper.spec_get(recs[ie].key@[de - 1])->Some_0;
            lemma_xor_cancel(bx, ke, 0);
            assert(ke == 0);
            assert(b.mapper.spec_get(recs[ie].key@[de - 1]) == b.mapper.spec_get(END_MARKER));
            assert(recs[ie].key@[de - 1] == END_MARKER);
            assert(de - 1 == key.len());
            assert(recs[ie].key@ == keys[ie] || recs[ie].key@ == keys[ie].push(END_MARKER));
            if recs[ie].key@ == keys[ie] {
                assert(keys[ie][de - 1] == END_MARKER);
            }
            assert(recs[ie].key@ == keys[ie].push(END_MARKER));
            assert(keys[ie].len() == key.len());
            assert(recs[ie].key@.take(key.len() as int) == key);
            assert(keys[ie] =~= key);
            assert(finished(false, recs, b.suffixes@, nodes, sp, e));
            assert(nodes[e].is_leaf());
            assert(values_of(recs)[ie] == values[ie]);
        }
    }

    /// Following the codes of a record to a leaf is walking to that leaf.
    pub proof fn lemma_arr_lookup_walk(&self, n: u32, key: Seq<char>)
        requires
            arr_lookup(self.mapper, self.nodes@, n, key) is Some,
        ensures
            self.walk(n, key) is Some,
            (self.walk(n, key)->Some_0 as int) < self.nodes@.len(),
            self.nodes@[self.walk(n, key)->Some_0 as int].is_leaf(),
            Some(self.nodes@[self.walk(n, key)->Some_0 as int].get_base()) == arr_lookup(self.mapper, self.nodes@, n, key),
        decreases key.len(),
    {
        if key.len() > 0 {
            let k = self.mapper.spec_get(key[0])->Some_0;
            let c = child_of(self.nodes@, n, k)->Some_0;
            self.lemma_arr_lookup_walk(c, key.skip(1));
        }
    }

    /// A record of the built array, the key itself or the key followed by
    /// the end marker, makes the key look up to the record's value.
    pub proof fn lemma_record_found(&self, key: Seq<char>, rkey: Seq<char>, v: u32)
        requires
            arr_lookup(self.mapper, self.nodes@, 0, rkey) == Some(v),
            rkey == key || rkey == key.push(END_MARKER),
            end_flags_ok(self.nodes@),
            self.nodes@.len() <= 0x7fff_ffff,
            self.mapper.spec_get(END_MARKER) == Some(0u32),
        ensures
            self.lookup(key) == Some(v),
    {
        self.lemma_arr_lookup_walk(0, rkey);
        if rkey == key.push(END_MARKER) {
            self.lemma_walk_append(0, key, seq![END_MARKER]);
            assert(key + seq![END_MARKER] =~= rkey);
            let p = self.walk(0, key)->Some_0;
            let l = self.walk(0, rkey)->Some_0;
            assert(seq![END_MARKER].skip(1) =~= Seq::<char>::empty());
            assert(seq![END_MARKER][0] == END_MARKER);
            assert(self.walk(p, seq![END_MARKER]) == Some(l));
            match child_of(self.nodes@, p, 0) {
                Some(c) => {
                    assert(self.walk(c, seq![END_MARKER].skip(1)) == Some(c));
                },
                None => {},
            }
            assert(child_of(self.nodes@, p, 0) == Some(l));
            let nd = self.nodes@[p as int];
            let b = nd.base;
            lemma_bits(b);
            assert((nd.get_base() ^ 0) == nd.get_base()) by {
                let x = nd.get_base();
                lemma_bits(x);
            }
            if nd.is_vacant() {
                lemma_constants();
            }
            assert(!nd.is_vacant());
            assert(self.nodes@[p as int] == nd);
        }
    }

    /// Every key of a built array looks up to its value in the released trie.
    proof fn lemma_all_found(b: Builder, t: Trie, keys: Seq<Seq<char>>, values: Seq<u32>)
        requires
            Builder::built(Ok(b), false, keys, values),
            t.mapper == b.mapper,
            t.nodes@ == b.nodes@,
        ensures
            forall|i: int| 0 <= i < keys.len() ==> #[trigger] t.lookup(keys[i]) == Some(values[i]),
            forall|key: Seq<char>| !key.contains(END_MARKER) && (#[trigger] t.lookup(key)) is Some ==> exists|i: int|
                0 <= i < keys.len() && keys[i] == key && Some(values[i]) == t.lookup(key),
    {
        assert forall|key: Seq<char>| !key.contains(END_MARKER) && (#[trigger] t.lookup(key)) is Some implies exists|i: int|
            0 <= i < keys.len() && keys[i] == key && Some(values[i]) == t.lookup(key) by {
            assert(input_error(keys, values) is None);
            t.lemma_only_stored(b, keys, values, key, t.lookup(key)->Some_0);
        }
        assert forall|i: int| 0 <= i < keys.len() implies #[trigger] t.lookup(keys[i]) == Some(values[i]) by {
            assert(b.records@[i].key@ == keys[i] || b.records@[i].key@ == keys[i].push(END_MARKER));
            assert(values_of(b.records@)[i] == values[i]);
            assert(arr_lookup(b.mapper, b.nodes@, 0, b.records@[i].key@) == Some(b.records@[i].value));
            t.lemma_record_found(keys[i], b.records@[i].key@, values[i]);
        }
    }

    /// Creates a new trie from sorted keys; the key at position `i` gets
    /// value `i`.
    pub fn from_keys(keys: &[&str]) -> (r: Result<Self, CrawdadError>)
        ensures
            keys@.len() > 0x8000_0000 ==> r == Err::<Self, CrawdadError>(
                CrawdadError::Scale(ScaleError { arg: "input value", max: OFFSET_MASK }),
            ),
            keys@.len() <= 0x8000_0000 ==> Self::built(r, list_keys(keys@), index_values(keys@.len())),
    {
        match Builder::new().build_from_keys(keys) {
            Ok(b) => {
                let ghost gb = b;
                let r = b.release_trie();
                proof {
                    if r is Ok {
                        Self::lemma_all_found(gb, r->Ok_0, list_keys(keys@), index_values(keys@.len()));
                    }
                }
                r
            },
            Err(e) => Err(e),
        }
    }

    /// Creates a new trie from sorted key-value records.
    pub fn from_records(records: &[(&str, u32)]) -> (r: Result<Self, CrawdadError>)
        ensures
            Self::built(r, str_keys(records@), str_values(records@)),
    {
        match Builder::new().build_from_records(records) {
            Ok(b) => {
                let ghost gb = b;
                let r = b.release_trie();
                proof {
                    if r is Ok {
                        Self::lemma_all_found(gb, r->Ok_0, str_keys(records@), str_values(records@));
                    }
                }
                r
            },
            Err(e) => Err(e),
        }
    }

    /// Returns a value associated with an input key if exists.
    pub fn exact_match(&self, key: &[char]) -> (r: Option<u32>)
        ensures
            key@.contains(END_MARKER) ==> r is None,
            !key@.contains(END_MARKER) ==> r == self.lookup(key@),
    {
        if contains_end_marker(key) {
            return None;
        }
        let mut node_idx: u32 = 0;
        let mut i: usize = 0;
        assert(key@.skip(0) =~= key@);
        while i < key.len()
            invariant
                i <= key@.len(),
                self.walk(0, key@) == self.walk(node_idx, key@.skip(i as int)),
            decreases key@.len() - i,
        {
            assert(key@.skip(i as int).skip(1) =~= key@.skip(i + 1));
            match self.mapper.get(key[i]) {
                Some(k) => match get_child_idx(&self.nodes, node_idx, k) {
                    Some(c) => node_idx = c,
                    None => return None,
                },
                None => return None,
            }
            i = i + 1;
        }
        self.get_value(node_idx)
    }

    /// Returns the value that node `n` carries.
    fn get_value(&self, n: u32) -> (r: Option<u32>)
        ensures
            r == self.value_of(n),
    {
        if (n as usize) < self.nodes.len() {
            let nd = self.nodes[n as usize];
            if nd.is_leaf() {
                Some(nd.get_base())
            } else if nd.has_leaf() {
                let l = nd.get_base() ^ END_CODE;
                if (l as usize) < self.nodes.len() {
                    Some(self.nodes[l as usize].get_base())
                } else {
                    None
                }
            } else {
                None
            }
        } else {
            None
        }
    }

    /// Returns all occurrences of keys that start the haystack, as pairs of
    /// the associated value and the end position in characters.
    pub fn common_prefix_search(&self, haystack: &[char]) -> (r: Vec<(u32, usize)>)
        ensures
            r@ == self.prefix_matches(haystack@, haystack@.len()),
    {
        let mut matches: Vec<(u32, usize)> = Vec::new();
        let mut node_idx: u32 = 0;
        let mut i: usize = 0;
        assert(haystack@.take(0) =~= Seq::<char>::empty());
        while i < haystack.len()
            invariant
                i <= haystack@.len(),
                self.walk(0, haystack@.take(i as int)) == Some(node_idx),
                matches@ == self.prefix_matches(haystack@, i as nat),
            decreases haystack@.len() - i,
        {
            let ghost h = haystack@;
            let step = match self.mapper.get(haystack[i]) {
                Some(k) => get_child_idx(&self.nodes, node_idx, k),
                None => None,
            };
            proof {
                self.lemma_walk_append(0, h.take(i as int), h.subrange(i as int, i + 1));
                assert(h.take(i as int) + h.subrange(i as int, i + 1) =~= h.take(i as int + 1));
                assert(h.subrange(i as int, i + 1).skip(1) =~= Seq::<char>::empty());
                assert(h.subrange(i as int, i + 1)[0] == h[i as int]);
                if let Some(c) = step {
                    assert(self.walk(c, Seq::<char>::empty()) == Some(c));
                }
                assert(self.walk(node_idx, h.subrange(i as int, i + 1)) == step);
            }
            match step {
                Some(c) => {
                    node_idx = c;
                    i = i + 1;
                    if let Some(v) = self.get_value(node_idx) {
                        matches.push((v, i));
                    }
                },
                None => {
                    proof {
                        self.lemma_no_more_matches(h, i as nat, h.len());
                    }
                    return matches;
                },
            }
        }
        matches
    }

    /// Maps each character of `text` to its code (`None` where it has none),
    /// for searching one text from many positions.
    pub fn map_text(&self, text: &[char], mapped: &mut Vec<Option<u32>>)
        ensures
            final(mapped)@ == map_codes(self.mapper, text@),
    {
        mapped.clear();
        let mut i: usize = 0;
        while i < text.len()
            invariant
                i <= text@.len(),
                mapped@ == map_codes(self.mapper, text@.take(i as int)),
            decreases text@.len() - i,
        {
            mapped.push(self.mapper.get(text[i]));
            assert(map_codes(self.mapper, text@.take(i + 1)) =~= mapped@);
            i = i + 1;
        }
        assert(text@.take(text@.len() as int) =~= text@);
    }

    /// The node reached from node `n` by the codes `codes`.
    pub open spec fn walk_codes(&self, n: u32, codes: Seq<Option<u32>>) -> Option<u32>
        decreases codes.len(),
    {
        if codes.len() == 0 {
            Some(n)
        } else {
            match codes[0] {
                Some(k) => match child_of(self.nodes@, n, k) {
                    Some(c) => self.walk_codes(c, codes.skip(1)),
                    None => None,
                },
                None => None,
            }
        }
    }

    /// Walking mapped codes is walking the characters they were mapped from.
    pub proof fn lemma_walk_codes(&self, n: u32, key: Seq<char>)
        ensures
            self.walk_codes(n, map_codes(self.mapper, key)) == self.walk(n, key),
        decreases key.len(),
    {
        if key.len() > 0 {
            assert(map_codes(self.mapper, key).skip(1) =~= map_codes(self.mapper, key.skip(1)));
            match self.mapper.spec_get(key[0]) {
                Some(k) => match child_of(self.nodes@, n, k) {
                    Some(c) => self.lemma_walk_codes(c, key.skip(1)),
                    None => {},
                },
                None => {},
            }
        }
    }

    /// Returns all occurrences of keys that start a mapped text (see
    /// [`Trie::map_text`]), as pairs of the associated value and the end
    /// position in characters.
    pub fn common_prefix_searcher(&self, mapped: &[Option<u32>]) -> (r: Vec<(u32, usize)>)
        ensures
            forall|h: Seq<char>| map_codes(self.mapper, h) == mapped@ ==> r@ == self.prefix_matches(h, h.len()),
    {
        let mut matches: Vec<(u32, usize)> = Vec::new();
        let mut node_idx: u32 = 0;
        let mut i: usize = 0;
        let ghost m = mapped@;
        assert(m.take(0) =~= Seq::<Option<u32>>::empty());
        while i < mapped.len()
            invariant
                m == mapped@,
                i <= m.len(),
                self.walk_codes(0, m.take(i as int)) == Some(node_idx),
                forall|h: Seq<char>| map_codes(self.mapper, h) == m ==> matches@ == #[trigger] self.prefix_matches(h, i as nat),
            decreases m.len() - i,
        {
            let step = match mapped[i] {
                Some(k) => get_child_idx(&self.nodes, node_idx, k),
                None => None,
            };
            proof {
                self.lemma_walk_codes_append(0, m.take(i as int), m.subrange(i as int, i + 1));
                assert(m.take(i as int) + m.subrange(i as int, i + 1) =~= m.take(i + 1));
                assert(m.subrange(i as int, i + 1).skip(1) =~= Seq::<Option<u32>>::empty());
                assert(m.subrange(i as int, i + 1)[0] == m[i as int]);
                if let Some(c) = step {
                    assert(self.walk_codes(c, Seq::<Option<u32>>::empty()) == Some(c));
                }
                assert(self.walk_codes(node_idx, m.subrange(i as int, i + 1)) == step);
            }
            match step {
                Some(c) => {
                    node_idx = c;
                    i = i + 1;
                    let ghost before = matches@;
                    let found = self.get_value(node_idx);
                    if let Some(v) = found {
                        matches.push((v, i));
                    }
                    proof {
                        assert forall|h: Seq<char>| map_codes(self.mapper, h) == m implies matches@ == #[trigger] self.prefix_matches(h, i as nat) by {
                            assert(map_codes(self.mapper, h.take(i as int)) =~= m.take(i as int));
                            self.lemma_walk_codes(0, h.take(i as int));
                            assert(before == self.prefix_matches(h, (i - 1) as nat));
                        }
                    }
                },
                None => {
                    proof {
                        assert forall|h: Seq<char>| map_codes(self.mapper, h) == m implies matches@ == #[trigger] self.prefix_matches(h, m.len()) by {
                            assert(map_codes(self.mapper, h.take(i + 1)) =~= m.take(i + 1));
                            self.lemma_walk_codes(0, h.take(i + 1));
                            self.lemma_no_more_matches(h, i as nat, h.len());
                        }
                    }
                    return matches;
                },
            }
        }
        proof {
            assert forall|h: Seq<char>| map_codes(self.mapper, h) == m implies matches@ == #[trigger] self.prefix_matches(h, h.len()) by {
                assert(h.len() == m.len());
            }
        }
        matches
    }

    /// Walking codes `a + b` walks `a`, then `b` from where `a` ended.
    pub proof fn lemma_walk_codes_append(&self, n: u32, a: Seq<Option<u32>>, b: Seq<Option<u32>>)
        ensures
            self.walk_codes(n, a + b) == match self.walk_codes(n, a) {
                Some(m) => self.walk_codes(m, b),
                None => None,
            },
        decreases a.len(),
    {
        if a.len() == 0 {
            assert(a + b =~= b);
        } else {
            assert((a + b).skip(1) =~= a.skip(1) + b);
            assert((a + b)[0] == a[0]);
            match a[0] {
                Some(k) => match child_of(self.nodes@, n, k) {
                    Some(c) => self.lemma_walk_codes_append(c, a.skip(1), b),
                    None => {},
                },
                None => {},
            }
        }
    }

    /// Every key of `records` looks up to its value.
    pub open spec fn all_found(&self, records: Seq<(Vec<char>, u32)>) -> bool {
        forall|i: int| 0 <= i < records.len() ==> self.lookup(#[trigger] records[i].0@) == Some(records[i].1)
    }

    /// Appends a record whose key looks up to its value.
    fn push_record(&self, out: &mut Vec<(Vec<char>, u32)>, key: Vec<char>, v: u32)
        requires
            self.lookup(key@) == Some(v),
            self.all_found(old(out)@),
        ensures
            self.all_found(final(out)@),
    {
        out.push((key, v));
        assert forall|i: int| 0 <= i < out@.len() implies self.lookup(#[trigger] out@[i].0@) == Some(out@[i].1) by {
            if i < old(out)@.len() {
                assert(out@[i] == old(out)@[i]);
            }
        }
    }

    /// Returns the records of the trie: each key, as characters, with its
    /// value.
    pub fn record_iter(&self) -> (r: Vec<(Vec<char>, u32)>)
        requires
            self.mapper.table@.len() <= u32::MAX,
        ensures
            self.all_found(r@),
    {
        let inv = self.mapper.inverse();
        let mut key: Vec<char> = Vec::new();
        let mut out: Vec<(Vec<char>, u32)> = Vec::new();
        assert(self.walk(0, key@) == Some(0u32));
        self.collect_records(&inv, 0, &mut key, &mut out, self.nodes.len());
        out
    }

    /// Appends the records below node `node`, which `key` leads to, to
    /// `out`, going at most `budget` levels down.
    fn collect_records(
        &self,
        inv: &Vec<Option<char>>,
        node: u32,
        key: &mut Vec<char>,
        out: &mut Vec<(Vec<char>, u32)>,
        budget: usize,
    )
        requires
            self.walk(0, old(key)@) == Some(node),
            inv@.len() <= u32::MAX,
            forall|k: int| 0 <= k < inv@.len() && #[trigger] inv@[k] is Some ==> self.mapper.spec_get(inv@[k]->Some_0) == Some(k as u32),
            self.all_found(old(out)@),
        ensures
            final(key)@ == old(key)@,
            self.all_found(final(out)@),
        decreases budget,
    {
        if let Some(v) = self.get_value(node) {
            let copy = copy_chars(key);
            self.push_record(out, copy, v);
        }
        if budget == 0 || (node as usize) >= self.nodes.len() || self.nodes[node as usize].is_leaf() {
            return;
        }
        let mut k: usize = 1;
        while k < inv.len()
            invariant
                self.walk(0, key@) == Some(node),
                key@ == old(key)@,
                forall|k: int| 0 <= k < inv@.len() && #[trigger] inv@[k] is Some ==> self.mapper.spec_get(inv@[k]->Some_0) == Some(k as u32),
                self.all_found(out@),
                inv@.len() <= u32::MAX,
                budget > 0,
            decreases inv@.len() - k,
        {
            if let Some(ch) = inv[k] {
                if let Some(c) = get_child_idx(&self.nodes, node, k as u32) {
                    let ghost before = key@;
                    key.push(ch);
                    proof {
                        self.lemma_walk_append(0, before, seq![ch]);
                        assert(seq![ch].skip(1) =~= Seq::<char>::empty());
                        assert(self.walk(c, Seq::<char>::empty()) == Some(c));
                        assert(key@ =~= before + seq![ch]);
                    }
                    self.collect_records(inv, c, key, out, budget - 1);
                    key.pop();
                    assert(key@ =~= before);
                }
            }
            k = k + 1;
        }
    }

    /// Walking `a + b` walks `a`, then `b` from where `a` ended.
    pub proof fn lemma_walk_append(&self, n: u32, a: Seq<char>, b: Seq<char>)
        ensures
            self.walk(n, a + b) == match self.walk(n, a) {
                Some(m) => self.walk(m, b),
                None => None,
            },
        decreases a.len(),
    {
        if a.len() == 0 {
            assert(a + b =~= b);
        } else {
            assert((a + b).skip(1) =~= a.skip(1) + b);
            assert((a + b)[0] == a[0]);
            match self.mapper.spec_get(a[0]) {
                Some(k) => match child_of(self.nodes@, n, k) {
                    Some(c) => self.lemma_walk_append(c, a.skip(1), b),
                    None => {},
                },
                None => {},
            }
        }
    }

    /// Once the walk along `h` fails at position `i`, no longer prefix matches.
    pub proof fn lemma_no_more_matches(&self, h: Seq<char>, i: nat, j: nat)
        requires
            i < h.len(),
            i <= j <= h.len(),
            self.walk(0, h.take(i as int + 1)) is None,
        ensures
            self.prefix_matches(h, j) == self.prefix_matches(h, i),
        decreases j,
    {
        if j > i {
            self.lemma_no_more_matches(h, i, (j - 1) as nat);
            self.lemma_walk_append(0, h.take(i as int + 1), h.subrange(i as int + 1, j as int));
            assert(h.take(i as int + 1) + h.subrange(i as int + 1, j as int) =~= h.take(j as int));
        }
    }

    /// Serializes the data structure into a [`Vec`].
    pub fn serialize_to_vec(&self) -> (r: Vec<u8>)
        requires
            self.mapper.table@.len() <= 0xffff_ffff,
            self.nodes@.len() <= 0xffff_ffff,
        ensures
            r@ == self.encode(),
    {
        let mut dst: Vec<u8> = Vec::new();
        self.mapper.serialize_into_vec(&mut dst);
        pack_u32(&mut dst, self.nodes.len() as u32, 4);
        serialize_nodes(&self.nodes, &mut dst);
        assert(dst@ =~= self.encode());
        dst
    }

    /// Deserializes the data structure from a given byte slice; returns it
    /// with the bytes that follow it.
    #[verifier::rlimit(100)]
    #[verifier::spinoff_prover]
    pub fn deserialize_from_slice(source: &[u8]) -> (r: (Self, &[u8]))
        requires
            Self::fits(source@),
        ensures
            forall|t: Trie, rest: Seq<u8>|
                source@ == t.encode() + rest && t.mapper.table@.len() <= 0xffff_ffff && t.nodes@.len()
                    <= 0xffff_ffff ==> r.0.same(&t) && r.1@ == rest,
    {
        let (mapper, rest) = CodeMapper::deserialize_from_slice(source);
        let len = unpack_u32(rest, 4) as usize;
        let body = &rest[4..rest.len()];
        let nodes = deserialize_nodes(body, len);
        let remain = &body[8 * len..body.len()];
        let r = Trie { mapper, nodes };
        proof {
            assert forall|t: Trie, tail: Seq<u8>|
                source@ == t.encode() + tail && t.mapper.table@.len() <= 0xffff_ffff && t.nodes@.len()
                    <= 0xffff_ffff implies r.same(&t) && remain@ == tail by {
                let after = le_bytes(t.nodes@.len(), 4) + encode_nodes(t.nodes@) + tail;
                assert(source@ =~= t.mapper.encode() + after);
                lemma_mapper_round_trip(t.mapper, after);
                lemma_scale_values();
                lemma_le_round_trip_fits(t.nodes@.len(), 4);
                assert(rest@.take(4) =~= le_bytes(t.nodes@.len(), 4));
                assert(body@ =~= encode_nodes(t.nodes@) + tail);
                lemma_nodes_round_trip(t.nodes@, tail);
                lemma_encode_nodes_len(t.nodes@);
                assert(remain@ =~= tail);
            }
        }
        (r, remain)
    }

    /// Returns the total amount of heap used by this automaton in bytes.
    pub fn heap_bytes(&self) -> (r: usize)
        requires
            self.io_len() <= usize::MAX,
        ensures
            r == 2 * self.mapper.table@.len() + 8 * self.nodes@.len(),
    {
        self.mapper.heap_bytes() + self.nodes.len() * 8
    }

    /// Returns the total amount of bytes to serialize the data structure.
    pub fn io_bytes(&self) -> (r: usize)
        requires
            self.io_len() <= usize::MAX,
        ensures
            r == self.io_len(),
            r == self.encode().len(),
    {
        proof {
            lemma_encode_nodes_len(self.nodes@);
        }
        self.mapper.io_bytes() + self.nodes.len() * Node::io_bytes() + 4
    }

    /// Returns the number of reserved elements.
    pub fn num_elems(&self) -> (r: usize)
        ensures
            r == self.nodes@.len(),
    {
        self.nodes.len()
    }

    /// Returns the number of vacant elements.
    pub fn num_vacants(&self) -> (r: usize)
        ensures
            r == count_vacant(self.nodes@),
    {
        num_vacant_nodes(&self.nodes)
    }
}

} // verus!

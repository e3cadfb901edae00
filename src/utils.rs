//! Helpers on character sequences.
use vstd::prelude::*;

use core::cmp::Ordering;

verus! {

/// Ordering of two integers.
pub open spec fn cmp_int(a: int, b: int) -> Ordering {
    if a < b {
        Ordering::Less
    } else if a == b {
        Ordering::Equal
    } else {
        Ordering::Greater
    }
}

/// Scalar values are below `0x11_0000`.
pub proof fn lemma_char_range(c: char)
    ensures
        0 <= (c as int) < 0x11_0000,
        (c as u32) as int == c as int,
        !(0xD800 <= (c as int) < 0xE000),
{
}

/// Returns `(lcp, ord)`: the length of the longest common prefix of `a` and
/// `b`, and how `a` compares with `b` in lexicographical order.
pub fn longest_common_prefix(a: &[char], b: &[char]) -> (r: (usize, Ordering))
    ensures
        r.0 <= a@.len(),
        r.0 <= b@.len(),
        a@.take(r.0 as int) == b@.take(r.0 as int),
        r.0 < a@.len() && r.0 < b@.len() ==> a@[r.0 as int] != b@[r.0 as int]
            && r.1 == cmp_int(a@[r.0 as int] as u32 as int, b@[r.0 as int] as u32 as int),
        r.0 == a@.len() || r.0 == b@.len() ==> r.1 == cmp_int(a@.len() as int, b@.len() as int),
{
    let min_len = if a.len() < b.len() {
        a.len()
    } else {
        b.len()
    };
    let mut i: usize = 0;
    while i < min_len
        invariant
            min_len <= a@.len(),
            min_len <= b@.len(),
            min_len == a@.len() || min_len == b@.len(),
            i <= min_len,
            a@.take(i as int) == b@.take(i as int),
        decreases min_len - i,
    {
        let x = a[i];
        let y = b[i];
        proof {
            lemma_char_range(x);
            lemma_char_range(y);
        }
        if x != y {
            let ord = if (x as u32) < (y as u32) {
                Ordering::Less
            } else {
                Ordering::Greater
            };
            return (i, ord);
        }
        assert(a@.take(i + 1) =~= a@.take(i as int).push(a@[i as int]));
        assert(b@.take(i + 1) =~= b@.take(i as int).push(b@[i as int]));
        i = i + 1;
    }
    let ord = if a.len() < b.len() {
        Ordering::Less
    } else if a.len() == b.len() {
        Ordering::Equal
    } else {
        Ordering::Greater
    };
    (min_len, ord)
}

/// Tells whether `key` holds the end marker.
pub fn contains_end_marker(key: &[char]) -> (r: bool)
    ensures
        r == key@.contains(crate::END_MARKER),
{
    let mut i: usize = 0;
    while i < key.len()
        invariant
            i <= key@.len(),
            forall|k: int| 0 <= k < i ==> key@[k] != crate::END_MARKER,
        decreases key@.len() - i,
    {
        if key[i] == crate::END_MARKER {
            assert(key@[i as int] == crate::END_MARKER);
            return true;
        }
        i = i + 1;
    }
    false
}

} // verus!

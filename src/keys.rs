//! Input records and their validation: frequencies, order, prefix-freeing.
use vstd::prelude::*;

use crate::errors::{CrawdadError, InputError};
use crate::utils::{cmp_int, lemma_char_range, longest_common_prefix};
use crate::END_MARKER;

use core::cmp::Ordering;

verus! {

/// A key as characters with its value.
pub struct Record {
    pub key: Vec<char>,
    pub value: u32,
}

/// The keys of `recs`.
pub open spec fn keys_of(recs: Seq<Record>) -> Seq<Seq<char>> {
    Seq::new(recs.len(), |i: int| recs[i].key@)
}

/// The values of `recs`.
pub open spec fn values_of(recs: Seq<Record>) -> Seq<u32> {
    Seq::new(recs.len(), |i: int| recs[i].value)
}

/// Character `c` (by scalar value) occurs in some key.
pub open spec fn occurs(keys: Seq<Seq<char>>, c: int) -> bool {
    exists|i: int, j: int| 0 <= i < keys.len() && 0 <= j < keys[i].len() && #[trigger] keys[i][j] as u32 as int == c
}

/// Number of times character `c` (by scalar value) occurs in `key`.
pub open spec fn count_in_key(key: Seq<char>, c: int) -> nat
    decreases key.len(),
{
    if key.len() == 0 {
        0
    } else {
        count_in_key(key.drop_last(), c) + if key.last() as u32 as int == c { 1nat } else { 0nat }
    }
}

/// Number of times character `c` (by scalar value) occurs in the keys.
pub open spec fn count_in(keys: Seq<Seq<char>>, c: int) -> nat
    decreases keys.len(),
{
    if keys.len() == 0 {
        0
    } else {
        count_in(keys.drop_last(), c) + count_in_key(keys.last(), c)
    }
}

/// `n`, or `u32::MAX` when larger.
pub open spec fn saturate(n: nat) -> u32 {
    if n >= 0xffff_ffff {
        0xffff_ffff
    } else {
        n as u32
    }
}

/// The frequency table of the keys over scalar values `0..n`: each
/// character's number of occurrences, saturated, and the largest count for
/// the end marker so that it ranks first.
pub open spec fn freq_table(keys: Seq<Seq<char>>, n: nat) -> Seq<u32> {
    Seq::new(n, |c: int| if c == 0 { 0xffff_ffffu32 } else { saturate(count_in(keys, c)) })
}

/// Number of scalar values below `n` that get a code: the end marker and
/// those that occur in the keys.
pub open spec fn kinds_upto(keys: Seq<Seq<char>>, n: nat) -> nat
    decreases n,
{
    if n == 0 {
        0
    } else {
        let c = n - 1;
        kinds_upto(keys, (n - 1) as nat) + if c == 0 || occurs(keys, c) { 1nat } else { 0nat }
    }
}

/// Number of distinct characters of the keys, the end marker included.
pub open spec fn kinds(keys: Seq<Seq<char>>) -> nat {
    kinds_upto(keys, 0x11_0000)
}

/// Lexicographical comparison of two character sequences.
pub open spec fn lex_cmp(a: Seq<char>, b: Seq<char>) -> Ordering
    decreases a.len(),
{
    if a.len() == 0 || b.len() == 0 {
        cmp_int(a.len() as int, b.len() as int)
    } else if a[0] != b[0] {
        cmp_int(a[0] as u32 as int, b[0] as u32 as int)
    } else {
        lex_cmp(a.skip(1), b.skip(1))
    }
}

/// `a` comes before `b` and is no prefix of it: they first differ at a
/// position that both have.
pub open spec fn separated(a: Seq<char>, b: Seq<char>) -> bool {
    exists|p: int|
        0 <= p < a.len() && p < b.len() && a.take(p) == b.take(p) && (#[trigger] a[p] as u32) < (b[p] as u32)
}

/// The error on the order of keys `i-1` and `i`, or of a later pair.
pub open spec fn order_error(keys: Seq<Seq<char>>, i: nat) -> Option<CrawdadError>
    decreases keys.len() - i,
{
    if i >= keys.len() || i == 0 {
        None
    } else {
        match lex_cmp(keys[i - 1], keys[i as int]) {
            Ordering::Less => order_error(keys, i + 1),
            Ordering::Equal => Some(
                CrawdadError::Input(InputError { msg: "records must not contain duplicated keys." }),
            ),
            Ordering::Greater => Some(
                CrawdadError::Input(InputError { msg: "records must be sorted." }),
            ),
        }
    }
}

/// The error that validation gives on records with keys `keys` and values
/// `values`, if any, checking in this order: emptiness, values, the end
/// marker, the number of characters, an empty first key, and the order.
pub open spec fn input_error(keys: Seq<Seq<char>>, values: Seq<u32>) -> Option<CrawdadError> {
    if keys.len() == 0 {
        Some(CrawdadError::Input(InputError { msg: "records must not be empty." }))
    } else if exists|i: int| 0 <= i < values.len() && #[trigger] values[i] > 0x7fff_ffff {
        Some(CrawdadError::Scale(crate::errors::ScaleError { arg: "input value", max: 0x7fff_ffff }))
    } else if occurs(keys, 0) {
        Some(CrawdadError::Input(InputError { msg: "END_MARKER must not be contained." }))
    } else if kinds(keys) > 0xffff {
        Some(CrawdadError::Input(InputError { msg: "# of character kinds must be no more than 65535." }))
    } else if keys[0].len() == 0 {
        Some(CrawdadError::Input(InputError { msg: "records must not contain an empty key." }))
    } else {
        order_error(keys, 1)
    }
}

/// Character `x` (by scalar value) is among the first `j` of `key`.
pub open spec fn in_prefix(key: Seq<char>, j: int, x: int) -> bool {
    exists|k: int| 0 <= k < j && #[trigger] key[k] as u32 as int == x
}

pub proof fn lemma_in_prefix_step(key: Seq<char>, j: int, x: int)
    requires
        0 <= j < key.len(),
    ensures
        in_prefix(key, j + 1, x) <==> (in_prefix(key, j, x) || key[j] as u32 as int == x),
{
    if in_prefix(key, j + 1, x) && !in_prefix(key, j, x) {
        let k = choose|k: int| 0 <= k < j + 1 && #[trigger] key[k] as u32 as int == x;
        assert(k == j);
    }
    if key[j] as u32 as int == x {
        assert(key[j] as u32 as int == x);
    }
}

/// Relies on `str::chars`: it yields the characters of the string in order.
#[verifier::external_body]
pub(crate) fn chars_of(s: &str) -> (r: Vec<char>)
    ensures
        r@ == s@,
{
    s.chars().collect()
}

/// `lex_cmp` is decided at the first position where the sequences differ.
pub proof fn lemma_lex_cmp_at(a: Seq<char>, b: Seq<char>, l: int)
    requires
        0 <= l <= a.len(),
        l <= b.len(),
        a.take(l) == b.take(l),
        l < a.len() && l < b.len() ==> a[l] != b[l],
    ensures
        l < a.len() && l < b.len() ==> lex_cmp(a, b) == cmp_int(a[l] as u32 as int, b[l] as u32 as int),
        l == a.len() || l == b.len() ==> lex_cmp(a, b) == cmp_int(a.len() as int, b.len() as int),
    decreases l,
{
    if l > 0 {
        assert(a[0] == a.take(l)[0]);
        assert(b[0] == b.take(l)[0]);
        assert(a.skip(1).take(l - 1) =~= a.take(l).skip(1));
        assert(b.skip(1).take(l - 1) =~= b.take(l).skip(1));
        lemma_lex_cmp_at(a.skip(1), b.skip(1), l - 1);
        if l < a.len() && l < b.len() {
            assert(a.skip(1)[l - 1] == a[l]);
            assert(b.skip(1)[l - 1] == b[l]);
        }
    }
}

/// Counts the occurrences of each character in the keys, indexed by scalar
/// value; the end marker gets the largest frequency so that it ranks first.
pub(crate) fn make_freqs(records: &Vec<Record>) -> (r: Result<Vec<u32>, CrawdadError>)
    ensures
        occurs(keys_of(records@), 0) <==> r is Err,
        r is Err ==> r == Err::<Vec<u32>, CrawdadError>(
            CrawdadError::Input(InputError { msg: "END_MARKER must not be contained." }),
        ),
        r matches Ok(f) ==> {
            &&& 1 <= f@.len() <= 0x11_0000
            &&& f@[0] == u32::MAX
            &&& forall|c: int| 0 <= c < f@.len() ==> (#[trigger] f@[c] != 0 <==> (c == 0 || occurs(keys_of(records@), c)))
            &&& forall|c: int| occurs(keys_of(records@), c) ==> c < f@.len()
            &&& f@ == freq_table(keys_of(records@), f@.len())
        },
{
    let ghost keys = keys_of(records@);
    let mut freqs: Vec<u32> = vec![0];
    let mut i: usize = 0;
    assert(keys.take(0) =~= Seq::<Seq<char>>::empty());
    while i < records.len()
        invariant
            keys == keys_of(records@),
            i <= records@.len(),
            1 <= freqs@.len() <= 0x11_0000,
            forall|c: int| 0 <= c < freqs@.len() ==> (#[trigger] freqs@[c] != 0 <==> occurs(keys.take(i as int), c)),
            forall|c: int| occurs(keys.take(i as int), c) ==> c < freqs@.len(),
            forall|c: int| 0 <= c < freqs@.len() ==> #[trigger] freqs@[c] == saturate(count_in(keys.take(i as int), c)),
            forall|c: int| freqs@.len() <= c ==> #[trigger] count_in(keys.take(i as int), c) == 0,
        decreases records@.len() - i,
    {
        let key = &records[i].key;
        let ghost done = keys.take(i as int);
        let mut j: usize = 0;
        assert(key@.take(0) =~= Seq::<char>::empty());
        while j < key.len()
            invariant
                keys == keys_of(records@),
                i < records@.len(),
                done == keys.take(i as int),
                key@ == keys[i as int],
                j <= key@.len(),
                1 <= freqs@.len() <= 0x11_0000,
                forall|c: int| 0 <= c < freqs@.len() ==> (#[trigger] freqs@[c] != 0 <==> (occurs(done, c) || in_prefix(key@, j as int, c))),
                forall|c: int| #![trigger occurs(done, c)] #![trigger in_prefix(key@, j as int, c)] (occurs(done, c) || in_prefix(key@, j as int, c)) ==> c < freqs@.len(),
                forall|c: int| 0 <= c < freqs@.len() ==> #[trigger] freqs@[c] == saturate(count_in(done, c) + count_in_key(key@.take(j as int), c)),
                forall|c: int| freqs@.len() <= c ==> #[trigger] count_in(done, c) + count_in_key(key@.take(j as int), c) == 0,
            decreases key@.len() - j,
        {
            let ch = key[j];
            proof {
                lemma_char_range(ch);
            }
            let c = ch as u32 as usize;
            while freqs.len() <= c
                invariant
                    1 <= freqs@.len() <= 0x11_0000,
                    c < 0x11_0000,
                    forall|x: int| 0 <= x < freqs@.len() ==> (#[trigger] freqs@[x] != 0 <==> (occurs(done, x) || in_prefix(key@, j as int, x))),
                    forall|x: int| #![trigger occurs(done, x)] #![trigger in_prefix(key@, j as int, x)] (occurs(done, x) || in_prefix(key@, j as int, x)) ==> x < freqs@.len(),
                    forall|x: int| 0 <= x < freqs@.len() ==> #[trigger] freqs@[x] == saturate(count_in(done, x) + count_in_key(key@.take(j as int), x)),
                    forall|x: int| freqs@.len() <= x ==> #[trigger] count_in(done, x) + count_in_key(key@.take(j as int), x) == 0,
                decreases c + 1 - freqs@.len(),
            {
                proof {
                    let x = freqs@.len() as int;
                    assert(count_in(done, x) + count_in_key(key@.take(j as int), x) == 0);
                }
                freqs.push(0);
            }
            if freqs[c] < u32::MAX {
                freqs.set(c, freqs[c] + 1);
            }
            proof {
                assert(key@[j as int] as u32 as int == c);
                assert(key@.take(j + 1).drop_last() =~= key@.take(j as int));
                assert(key@.take(j + 1).last() == key@[j as int]);
                assert forall|x: int| 0 <= x < freqs@.len() implies #[trigger] freqs@[x] == saturate(count_in(done, x) + count_in_key(key@.take(j + 1), x)) by {
                    assert(count_in_key(key@.take(j + 1), x) == count_in_key(key@.take(j as int), x) + if x == c { 1nat } else { 0nat });
                }
                assert forall|x: int| freqs@.len() <= x implies #[trigger] count_in(done, x) + count_in_key(key@.take(j + 1), x) == 0 by {
                    assert(count_in_key(key@.take(j + 1), x) == count_in_key(key@.take(j as int), x) + if x == c { 1nat } else { 0nat });
                }
                assert forall|x: int| #![trigger in_prefix(key@, j + 1, x)] true implies (in_prefix(key@, j + 1, x) <==> (
                in_prefix(key@, j as int, x) || x == c)) by {
                    lemma_in_prefix_step(key@, j as int, x);
                }
                assert forall|x: int| (occurs(done, x) || in_prefix(key@, j + 1, x)) implies x < freqs@.len() by {
                    lemma_in_prefix_step(key@, j as int, x);
                    if in_prefix(key@, j as int, x) {
                        assert(x < freqs@.len());
                    }
                }
            }
            j = j + 1;
        }
        proof {
            assert forall|c: int| occurs(keys.take(i + 1), c) <==> (occurs(done, c) || in_prefix(key@, key@.len() as int, c)) by {
                if occurs(keys.take(i + 1), c) {
                    let (a, b) = choose|a: int, b: int| 0 <= a < keys.take(i + 1).len() && 0 <= b < keys.take(i + 1)[a].len() && #[trigger] keys.take(i + 1)[a][b] as u32 as int == c;
                    if a < i {
                        assert(done[a][b] as u32 as int == c);
                    } else {
                        assert(key@[b] as u32 as int == c);
                    }
                }
                if occurs(done, c) {
                    let (a, b) = choose|a: int, b: int| 0 <= a < done.len() && 0 <= b < done[a].len() && #[trigger] done[a][b] as u32 as int == c;
                    assert(keys.take(i + 1)[a][b] as u32 as int == c);
                }
                if in_prefix(key@, key@.len() as int, c) {
                    let k = choose|k: int| 0 <= k < key@.len() && #[trigger] key@[k] as u32 as int == c;
                    assert(keys.take(i + 1)[i as int][k] as u32 as int == c);
                }
            }
            assert forall|c: int| #[trigger] occurs(keys.take(i + 1), c) implies c < freqs@.len() by {
                assert(occurs(done, c) || in_prefix(key@, key@.len() as int, c));
            }
            assert(keys.take(i + 1).drop_last() =~= done);
            assert(keys.take(i + 1).last() == key@);
            assert(key@.take(key@.len() as int) =~= key@);
            assert forall|c: int| 0 <= c < freqs@.len() implies #[trigger] freqs@[c] == saturate(count_in(keys.take(i + 1), c)) by {
                assert(count_in(keys.take(i + 1), c) == count_in(done, c) + count_in_key(key@, c));
            }
            assert forall|c: int| freqs@.len() <= c implies #[trigger] count_in(keys.take(i + 1), c) == 0 by {
                assert(count_in(keys.take(i + 1), c) == count_in(done, c) + count_in_key(key@, c));
            }
        }
        i = i + 1;
    }
    assert(keys.take(records@.len() as int) =~= keys);
    if freqs[0] != 0 {
        return Err(CrawdadError::input("END_MARKER must not be contained."));
    }
    freqs.set(0, u32::MAX);
    assert(freqs@ =~= freq_table(keys, freqs@.len()));
    Ok(freqs)
}

/// Appends the end marker to each key that is a proper prefix of the next
/// one. Fails on an empty first key and on keys out of strictly increasing
/// order.
pub(crate) fn make_prefix_free(records: &mut Vec<Record>) -> (r: Result<(), CrawdadError>)
    requires
        !occurs(keys_of(old(records)@), 0),
    ensures
        old(records)@.len() == 0 ==> r == Err::<(), CrawdadError>(
            CrawdadError::Input(InputError { msg: "records must not be empty." }),
        ),
        old(records)@.len() > 0 ==> (r is Err <==> (keys_of(old(records)@)[0].len() == 0 || order_error(keys_of(old(records)@), 1) is Some)),
        old(records)@.len() > 0 && r is Err ==> r == Err::<(), CrawdadError>(
            if keys_of(old(records)@)[0].len() == 0 {
                CrawdadError::Input(InputError { msg: "records must not contain an empty key." })
            } else {
                order_error(keys_of(old(records)@), 1)->Some_0
            },
        ),
        r is Ok ==> prefix_free(final(records)@, keys_of(old(records)@)),
        r is Ok ==> values_of(final(records)@) == values_of(old(records)@),
        r is Ok ==> forall|k: int| 0 <= k < final(records)@.len() ==> (#[trigger] final(records)@[k].key@ == keys_of(old(records)@)[k].push(
            END_MARKER,
        ) <==> (k + 1 < final(records)@.len() && proper_prefix(keys_of(old(records)@)[k], keys_of(old(records)@)[k + 1]))),
{
    if records.len() == 0 {
        return Err(CrawdadError::input("records must not be empty."));
    }
    if records[0].key.len() == 0 {
        return Err(CrawdadError::input("records must not contain an empty key."));
    }
    let ghost orig = keys_of(old(records)@);
    let n = records.len();
    let mut i: usize = 1;
    while i < n
        invariant
            n == records@.len(),
            orig == keys_of(old(records)@),
            orig.len() == n,
            !occurs(orig, 0),
            orig[0].len() > 0,
            1 <= i <= n,
            order_error(orig, 1) == order_error(orig, i as nat),
            forall|k: int| 0 <= k < n ==> #[trigger] records@[k].value == old(records)@[k].value,
            forall|k: int| i - 1 <= k < n ==> #[trigger] records@[k].key@ == orig[k],
            forall|k: int| 0 <= k < i - 1 ==> #[trigger] records@[k].key@ == orig[k] || records@[k].key@ == orig[k].push(END_MARKER),
            forall|k: int| 1 <= k < i ==> separated(#[trigger] records@[k - 1].key@, records@[k].key@),
            forall|k: int| 1 <= k < i ==> lex_cmp(#[trigger] orig[k - 1], orig[k]) == Ordering::Less,
            forall|k: int| 0 <= k < i - 1 ==> (#[trigger] records@[k].key@ == orig[k].push(END_MARKER) <==> proper_prefix(orig[k], orig[k + 1])),
        decreases n - i,
    {
        assert(records@[i - 1].key@ == orig[i - 1]);
        assert(records@[i as int].key@ == orig[i as int]);
        let (lcp, cmp) = longest_common_prefix(records[i - 1].key.as_slice(), records[i].key.as_slice());
        proof {
            lemma_lex_cmp_at(orig[i - 1], orig[i as int], lcp as int);
        }
        match cmp {
            Ordering::Less => {
                if lcp == records[i - 1].key.len() {
                    let ghost a = orig[i - 1];
                    let ghost b = orig[i as int];
                    let ghost before = records@;
                    proof {
                        if i >= 2 {
                            let k = (i - 1) as int;
                            assert(separated(records@[k - 1].key@, records@[k].key@));
                        }
                    }
                    let mut key = records[i - 1].key.clone();
                    key.push(END_MARKER);
                    let value = records[i - 1].value;
                    records.set(i - 1, Record { key, value });
                    proof {
                        let p = lcp as int;
                        let a2 = records@[i - 1].key@;
                        assert(a2 == a.push(END_MARKER));
                        assert(a2.take(p) =~= a.take(p));
                        if i >= 2 {
                            let x = before[i - 2].key@;
                            assert(separated(x, before[i - 1].key@));
                            let q = choose|q: int|
                                0 <= q < x.len() && q < a.len() && x.take(q) == a.take(q) && (#[trigger] x[q] as u32) < (a[q] as u32);
                            assert(a2.take(q) =~= a.take(q));
                            assert(a2[q] == a[q]);
                            assert(separated(x, a2));
                        }
                        lemma_char_range(b[p]);
                        assert(b[p] as u32 != 0) by {
                            if b[p] as u32 == 0 {
                                assert(orig[i as int][p] as u32 as int == 0);
                            }
                        }
                        assert(a2[p] as u32 == 0);
                        assert(separated(a2, b));
                        assert(a.take(a.len() as int) =~= a);
                        assert(proper_prefix(a, b));
                        assert forall|k: int| 0 <= k < i - 1 implies (#[trigger] records@[k].key@ == orig[k].push(END_MARKER) <==> proper_prefix(
                            orig[k],
                            orig[k + 1],
                        )) by {
                            assert(records@[k] == before[k]);
                        }
                    }
                } else {
                    proof {
                        let p = lcp as int;
                        assert((orig[i - 1][p] as u32) < (orig[i as int][p] as u32));
                        assert(separated(orig[i - 1], orig[i as int]));
                        let a = orig[i - 1];
                        let b = orig[i as int];
                        if proper_prefix(a, b) {
                            assert(b.take(a.len() as int)[p] == b[p]);
                        }
                        assert(records@[i - 1].key@.len() != a.push(END_MARKER).len());
                    }
                }
                assert(records@[i as int].key@ == orig[i as int]);
            },
            Ordering::Equal => {
                return Err(CrawdadError::input("records must not contain duplicated keys."));
            },
            Ordering::Greater => {
                return Err(CrawdadError::input("records must be sorted."));
            },
        }
        i = i + 1;
    }
    proof {
        assert(order_error(orig, n as nat) is None);
        assert(values_of(records@) =~= values_of(old(records)@));
        let last = (n - 1) as int;
        assert(records@[last].key@ == orig[last]);
        assert(records@[last].key@.len() != orig[last].push(END_MARKER).len());
    }
    Ok(())
}

/// `a` is a proper prefix of `b`.
pub open spec fn proper_prefix(a: Seq<char>, b: Seq<char>) -> bool {
    a.len() < b.len() && b.take(a.len() as int) == a
}

/// `recs` holds the keys `orig` made prefix-free: each key is itself or
/// itself followed by the end marker, and each key is separated from the
/// next one.
pub open spec fn prefix_free(recs: Seq<Record>, orig: Seq<Seq<char>>) -> bool {
    &&& recs.len() == orig.len()
    &&& forall|k: int| 0 <= k < recs.len() ==> #[trigger] recs[k].key@ == orig[k] || recs[k].key@ == orig[k].push(END_MARKER)
    &&& forall|k: int| 1 <= k < recs.len() ==> separated(#[trigger] recs[k - 1].key@, recs[k].key@)
}

/// The keys of string records.
pub open spec fn str_keys(records: Seq<(&str, u32)>) -> Seq<Seq<char>> {
    Seq::new(records.len(), |i: int| records[i].0@)
}

/// The values of string records.
pub open spec fn str_values(records: Seq<(&str, u32)>) -> Seq<u32> {
    Seq::new(records.len(), |i: int| records[i].1)
}

/// The keys of a list of strings.
pub open spec fn list_keys(keys: Seq<&str>) -> Seq<Seq<char>> {
    Seq::new(keys.len(), |i: int| keys[i]@)
}

/// Values `0..n`.
pub open spec fn index_values(n: nat) -> Seq<u32> {
    Seq::new(n, |i: int| i as u32)
}

/// Turns keys into records; the key at position `i` gets value `i`.
pub(crate) fn records_from_keys(keys: &[&str]) -> (r: Vec<Record>)
    requires
        keys@.len() <= 0x1_0000_0000,
    ensures
        keys_of(r@) == list_keys(keys@),
        values_of(r@) == index_values(keys@.len()),
{
    let mut recs: Vec<Record> = Vec::new();
    let mut i: usize = 0;
    while i < keys.len()
        invariant
            i <= keys@.len() <= 0x1_0000_0000,
            recs@.len() == i,
            forall|k: int| 0 <= k < i ==> #[trigger] recs@[k].key@ == keys@[k]@ && recs@[k].value == k as u32,
        decreases keys@.len() - i,
    {
        let key = chars_of(keys[i]);
        recs.push(Record { key, value: i as u32 });
        i = i + 1;
    }
    assert(keys_of(recs@) =~= list_keys(keys@));
    assert forall|k: int| 0 <= k < recs@.len() implies #[trigger] values_of(recs@)[k] == index_values(keys@.len())[k] by {
        assert(recs@[k].key@ == keys@[k]@);
    }
    assert(values_of(recs@) =~= index_values(keys@.len()));
    recs
}

/// Turns string records into records.
pub(crate) fn records_from_pairs(records: &[(&str, u32)]) -> (r: Vec<Record>)
    ensures
        keys_of(r@) == str_keys(records@),
        values_of(r@) == str_values(records@),
{
    let mut recs: Vec<Record> = Vec::new();
    let mut i: usize = 0;
    while i < records.len()
        invariant
            i <= records@.len(),
            recs@.len() == i,
            forall|k: int| 0 <= k < i ==> #[trigger] recs@[k].key@ == records@[k].0@ && recs@[k].value == records@[k].1,
        decreases records@.len() - i,
    {
        let (k, v) = records[i];
        let key = chars_of(k);
        recs.push(Record { key, value: v });
        i = i + 1;
    }
    assert(keys_of(recs@) =~= str_keys(records@));
    assert forall|k: int| 0 <= k < recs@.len() implies #[trigger] values_of(recs@)[k] == str_values(records@)[k] by {
        assert(recs@[k].key@ == records@[k].0@);
    }
    assert(values_of(recs@) =~= str_values(records@));
    recs
}

/// Returns whether every value is at most `MAX_VALUE`.
pub(crate) fn values_fit(records: &Vec<Record>) -> (r: bool)
    ensures
        r <==> forall|i: int| 0 <= i < records@.len() ==> #[trigger] values_of(records@)[i] <= 0x7fff_ffff,
{
    let mut i: usize = 0;
    while i < records.len()
        invariant
            i <= records@.len(),
            forall|k: int| 0 <= k < i ==> #[trigger] values_of(records@)[k] <= 0x7fff_ffff,
        decreases records@.len() - i,
    {
        if records[i].value > crate::MAX_VALUE {
            assert(values_of(records@)[i as int] > 0x7fff_ffff);
            return false;
        }
        i = i + 1;
    }
    true
}

/// Total number of characters of the keys, each counted with one more for
/// a possible end marker.
pub open spec fn key_total(keys: Seq<Seq<char>>) -> int
    decreases keys.len(),
{
    if keys.len() == 0 {
        0
    } else {
        key_total(keys.drop_last()) + keys.last().len() + 1
    }
}

} // verus!

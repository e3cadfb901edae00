use crawdad::builder::Builder;
use crawdad::bytes::{pack_size, pack_u32, unpack_u32};
use crawdad::errors::CrawdadError;
use crawdad::mapper::CodeMapper;
use crawdad::trie::Trie;
use crawdad::mptrie::MpTrie;
use crawdad::END_MARKER;

#[test]
fn pack_size_boundaries() {
    assert_eq!(pack_size(0), 1);
    assert_eq!(pack_size(0xff), 1);
    assert_eq!(pack_size(0x100), 2);
    assert_eq!(pack_size(0xffff), 2);
    assert_eq!(pack_size(0x1_0000), 3);
    assert_eq!(pack_size(0xff_ffff), 3);
    assert_eq!(pack_size(0x100_0000), 4);
    assert_eq!(pack_size(u32::MAX), 4);
}

#[test]
fn pack_and_unpack_little_endian() {
    let mut dst = vec![9u8];
    pack_u32(&mut dst, 0x0102_0304, 3);
    assert_eq!(dst, vec![9, 0x04, 0x03, 0x02]);
    assert_eq!(unpack_u32(&dst[1..], 3), 0x02_0304);
    let mut dst = vec![];
    pack_u32(&mut dst, 0xdead_beef, 4);
    assert_eq!(unpack_u32(&dst, 4), 0xdead_beef);
    assert_eq!(unpack_u32(&dst, 1), 0xef);
}

#[test]
fn mapper_ranks_by_frequency_then_character() {
    let m = CodeMapper::new(&[u32::MAX, 1, 5, 3, 0, 5]).unwrap();
    assert_eq!(m.alphabet_size(), 5);
    assert_eq!(m.get('\u{0}'), Some(0));
    assert_eq!(m.get('\u{2}'), Some(1));
    assert_eq!(m.get('\u{5}'), Some(2));
    assert_eq!(m.get('\u{3}'), Some(3));
    assert_eq!(m.get('\u{1}'), Some(4));
    assert_eq!(m.get('\u{4}'), None);
    assert_eq!(m.get('\u{6}'), None);
}

#[test]
fn mapper_serialization_round_trip() {
    let m = CodeMapper::new(&[u32::MAX, 0, 7, 2]).unwrap();
    let mut bytes = vec![];
    m.serialize_into_vec(&mut bytes);
    assert_eq!(bytes.len(), m.io_bytes());
    bytes.push(42);
    let (other, rest) = CodeMapper::deserialize_from_slice(&bytes);
    assert_eq!(other, m);
    assert_eq!(rest, &[42]);
}

#[test]
fn end_marker_gets_code_zero() {
    let trie = Trie::from_keys(&["ab", "b"]).unwrap();
    assert_eq!(trie.mapper.get(END_MARKER), Some(0));
    assert_eq!(trie.mapper.get('a').is_some(), true);
    assert_ne!(trie.mapper.get('a'), Some(0));
    assert_eq!(trie.mapper.alphabet_size(), 3);
}

#[test]
fn error_empty_records() {
    let r = Trie::from_records(&[]);
    assert!(matches!(r, Err(CrawdadError::Input(e)) if e.msg() == "records must not be empty."));
}

#[test]
fn error_value_too_large() {
    let r = Trie::from_records(&[("a", 0x8000_0000)]);
    assert!(matches!(r, Err(CrawdadError::Scale(e)) if e.arg() == "input value" && e.max() == 0x7fff_ffff));
}

#[test]
fn error_end_marker_in_key() {
    let r = Trie::from_keys(&["a\u{0}b"]);
    assert!(matches!(r, Err(CrawdadError::Input(e)) if e.msg() == "END_MARKER must not be contained."));
}

#[test]
fn error_empty_key() {
    let r = Trie::from_keys(&["", "a"]);
    assert!(matches!(r, Err(CrawdadError::Input(e)) if e.msg() == "records must not contain an empty key."));
}

#[test]
fn error_duplicated_keys() {
    let r = Trie::from_keys(&["a", "b", "b"]);
    assert!(matches!(r, Err(CrawdadError::Input(e)) if e.msg() == "records must not contain duplicated keys."));
}

#[test]
fn error_unsorted_keys() {
    let r = Trie::from_keys(&["b", "a"]);
    assert!(matches!(r, Err(CrawdadError::Input(e)) if e.msg() == "records must be sorted."));
}

#[test]
fn error_too_many_character_kinds() {
    let mut key = String::new();
    let mut v: u32 = 1;
    let mut n = 0;
    while n < 65535 {
        if let Some(c) = char::from_u32(v) {
            key.push(c);
            n += 1;
        }
        v += 1;
    }
    let r = Trie::from_keys(&[key.as_str()]);
    assert!(matches!(r, Err(CrawdadError::Input(e)) if e.msg() == "# of character kinds must be no more than 65535."));
}

#[test]
fn error_wrong_release() {
    let b = Builder::new().minimal_prefix().build_from_keys(&["a"]).unwrap();
    assert!(matches!(b.release_trie(), Err(CrawdadError::Setup(_))));
    let b = Builder::new().build_from_keys(&["a"]).unwrap();
    assert!(matches!(b.release_mptrie(), Err(CrawdadError::Setup(_))));
}

#[test]
fn records_with_values() {
    let records = [("世界", 7), ("世界中", 3), ("国民", 7)];
    let trie = Trie::from_records(&records).unwrap();
    let mp = MpTrie::from_records(&records).unwrap();
    for (k, v) in records.iter() {
        let key: Vec<char> = k.chars().collect();
        assert_eq!(trie.exact_match(&key), Some(*v));
        assert_eq!(mp.exact_match(&key), Some(*v));
    }
    assert_eq!(trie.num_elems(), 8);
    assert!(trie.num_vacants() < trie.num_elems());
    assert_eq!(trie.heap_bytes(), 2 * trie.mapper.table.len() + 8 * trie.num_elems());
}

#[test]
fn vacant_nodes_are_masked() {
    let trie = Trie::from_keys(&["a", "b", "c", "dd"]).unwrap();
    let mut vacants = 0;
    for n in trie.nodes.iter() {
        if n.is_vacant() {
            vacants += 1;
            assert_eq!(n.base, 0x7fff_ffff);
            assert_eq!(n.check, 0x7fff_ffff);
        }
    }
    assert_eq!(vacants, trie.num_vacants());
}

#[test]
fn unknown_characters_never_match() {
    let trie = Trie::from_keys(&["ab", "abc"]).unwrap();
    let key: Vec<char> = "abz".chars().collect();
    assert_eq!(trie.exact_match(&key), None);
    let key: Vec<char> = "zab".chars().collect();
    assert_eq!(trie.exact_match(&key), None);
    let key: Vec<char> = "a".chars().collect();
    assert_eq!(trie.exact_match(&key), None);
}

#[test]
fn keys_with_end_marker_are_not_found() {
    let trie = Trie::from_keys(&["ab", "abc"]).unwrap();
    let key: Vec<char> = "ab\u{0}".chars().collect();
    assert_eq!(trie.exact_match(&key), None);
    let mp = MpTrie::from_keys(&["ab", "abc"]).unwrap();
    assert_eq!(mp.exact_match(&key), None);
    let key: Vec<char> = "ab".chars().collect();
    assert_eq!(mp.exact_match(&key), Some(0));
}

#[test]
fn release_tails_in_suffix_order() {
    let b = Builder::new().minimal_prefix().build_from_keys(&["ab", "abc", "adaab", "bbc"]).unwrap();
    let trie = b.release_mptrie().unwrap();
    assert_eq!(trie.tails.len(), 11);
    let code = |c: char| trie.mapper.get(c).unwrap() as u8;
    assert_eq!(
        trie.tails,
        vec![0, 1, 3, code('a'), code('a'), code('b'), 2, 2, code('b'), code('c'), 3]
    );
}

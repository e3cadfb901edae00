use crawdad::errors::CrawdadError;
use crawdad::mptrie::MpTrie;

fn chars(s: &str) -> Vec<char> {
    s.chars().collect()
}

fn all_matches(trie: &MpTrie, text: &str) -> Vec<(u32, std::ops::Range<usize>)> {
    let haystack = chars(text);
    let mut matches = vec![];
    for i in 0..haystack.len() {
        for (v, j) in trie.common_prefix_search(&haystack[i..]) {
            matches.push((v, i..i + j));
        }
    }
    matches
}

#[test]
fn mptrie_test_exact_match() {
    let keys = vec!["世界", "世界中", "世論調査", "統計調査"];
    let trie = MpTrie::from_keys(&keys).unwrap();
    for (i, key) in keys.iter().enumerate() {
        assert_eq!(trie.exact_match(&chars(key)), Some(u32::try_from(i).unwrap()));
    }
    assert_eq!(trie.exact_match(&chars("世")), None);
    assert_eq!(trie.exact_match(&chars("世論")), None);
    assert_eq!(trie.exact_match(&chars("世界中で")), None);
    assert_eq!(trie.exact_match(&chars("統計")), None);
    assert_eq!(trie.exact_match(&chars("統計調")), None);
    assert_eq!(trie.exact_match(&chars("日本")), None);
}

#[test]
fn mptrie_test_common_prefix_search() {
    let keys = vec!["世界", "世界中", "世論調査", "統計調査"];
    let trie = MpTrie::from_keys(&keys).unwrap();
    assert_eq!(
        all_matches(&trie, "世界中の統計世論調査"),
        vec![(0, 0..2), (1, 0..3), (2, 6..10)]
    );
}

#[test]
fn mptrie_test_serialize() {
    let keys = vec!["世界", "世界中", "世論調査", "統計調査"];
    let trie = MpTrie::from_keys(&keys).unwrap();

    let bytes = trie.serialize_to_vec();
    assert_eq!(trie.io_bytes(), bytes.len());

    let (other, remain) = MpTrie::deserialize_from_slice(&bytes);
    assert!(remain.is_empty());

    assert_eq!(trie.mapper, other.mapper);
    assert_eq!(trie.nodes, other.nodes);
    assert_eq!(trie.tails, other.tails);
    assert_eq!(trie.code_size, other.code_size);
    assert_eq!(trie.value_size, other.value_size);
}

#[test]
fn mptrie_test_empty_set() {
    assert!(MpTrie::from_keys(&[""][0..0]).is_err());
}

#[test]
fn mptrie_test_empty_char() {
    assert!(MpTrie::from_keys(&[""]).is_err());
}

#[test]
fn mptrie_test_empty_key() {
    assert!(MpTrie::from_keys(&["", "AAA"]).is_err());
}

#[test]
fn mptrie_test_unsorted_keys() {
    assert!(MpTrie::from_keys(&["BB", "AA"]).is_err());
    assert!(MpTrie::from_keys(&["AAA", "AA"]).is_err());
}

#[test]
fn mptrie_test_duplicate_keys() {
    assert!(MpTrie::from_keys(&["AA", "AA"]).is_err());
}

#[test]
fn nomap_test_exact_match_en() {
    let keys = vec!["ab", "abc", "adaab", "bbc"];
    let trie = MpTrie::from_keys(&keys).unwrap();
    assert_eq!(trie.exact_match(&chars("ab")), Some(0));
    assert_eq!(trie.exact_match(&chars("abc")), Some(1));
    assert_eq!(trie.exact_match(&chars("adaab")), Some(2));
    assert_eq!(trie.exact_match(&chars("bbc")), Some(3));
}

#[test]
fn nomap_test_exact_match_ja() {
    let keys = vec!["世界", "世界中", "世直し", "国民"];
    let trie = MpTrie::from_keys(&keys).unwrap();
    assert_eq!(trie.exact_match(&chars("世界")), Some(0));
    assert_eq!(trie.exact_match(&chars("世界中")), Some(1));
    assert_eq!(trie.exact_match(&chars("世直し")), Some(2));
    assert_eq!(trie.exact_match(&chars("国民")), Some(3));
}

#[test]
fn test_common_prefix_search_ja() {
    let keys = vec!["世界", "世界中", "世直し", "国民"];
    let trie = MpTrie::from_keys(&keys).unwrap();
    let haystack = chars("国民が世界中で世直し");
    let mut results = vec![];
    for i in 0..haystack.len() {
        for (val, pos) in trie.common_prefix_search(&haystack[i..]) {
            results.push((val, i + pos));
        }
    }
    assert_eq!(results, vec![(3, 2), (0, 5), (1, 6), (2, 10)]);
}

#[test]
fn test_common_prefix_search_en_1() {
    let keys = vec!["ab", "abc", "adaab", "bbc"];
    let trie = MpTrie::from_keys(&keys).unwrap();
    let haystack = chars("adaabcabbc");
    let mut results = vec![];
    for i in 0..haystack.len() {
        for (val, pos) in trie.common_prefix_search(&haystack[i..]) {
            results.push((val, i + pos));
        }
    }
    assert_eq!(results, vec![(2, 5), (0, 5), (1, 6), (0, 8), (3, 10)]);
}

#[test]
fn minimal_prefix_scenario_tails() {
    let keys = vec!["ab", "abc", "adaab", "bbc"];
    let trie = MpTrie::from_keys(&keys).unwrap();
    for (i, key) in keys.iter().enumerate() {
        assert_eq!(trie.exact_match(&chars(key)), Some(i as u32));
    }
    assert_eq!(trie.code_size, 1);
    assert_eq!(trie.value_size, 1);
    // Three tail records: "bc" -> 3, "aab" -> 2, "" -> 1.
    assert_eq!(trie.tails.len(), 11);
    let mut found = vec![];
    let mut p = 0;
    while p < trie.tails.len() {
        let len = trie.tails[p] as usize;
        let value = trie.tails[p + 1 + len];
        found.push((len, value));
        p += len + 2;
    }
    found.sort();
    assert_eq!(found, vec![(0, 1), (2, 3), (3, 2)]);
}

#[test]
fn minimal_prefix_negative_lookups() {
    let keys = vec!["ab", "abc", "adaab", "bbc"];
    let trie = MpTrie::from_keys(&keys).unwrap();
    assert_eq!(trie.exact_match(&chars("a")), None);
    assert_eq!(trie.exact_match(&chars("ada")), None);
    assert_eq!(trie.exact_match(&chars("bbcc")), None);
    assert_eq!(trie.exact_match(&chars("abx")), None);
    assert_eq!(trie.exact_match(&chars("")), None);
}

#[test]
fn minimal_prefix_single_key_round_trip() {
    let trie = MpTrie::from_records(&[("X", 0)]).unwrap();
    assert_eq!(trie.exact_match(&chars("X")), Some(0));
    let bytes = trie.serialize_to_vec();
    let (other, rest) = MpTrie::deserialize_from_slice(&bytes);
    assert!(rest.is_empty());
    assert_eq!(other.num_elems(), trie.num_elems());
    assert_eq!(other.io_bytes(), trie.io_bytes());
    assert_eq!(other.exact_match(&chars("X")), Some(0));
    assert_eq!(other.common_prefix_search(&chars("XX")), vec![(0, 1)]);
}

#[test]
fn minimal_prefix_records_round_trip() {
    let keys = vec!["世界", "世界中", "世論調査", "統計調査"];
    let trie = MpTrie::from_keys(&keys).unwrap();
    let mut records = trie.record_iter();
    records.sort();
    assert_eq!(
        records,
        vec![
            (vec!['世', '界'], 0),
            (vec!['世', '界', '中'], 1),
            (vec!['世', '論', '調', '査'], 2),
            (vec!['統', '計', '調', '査'], 3)
        ]
    );
}

#[test]
fn minimal_prefix_rejects_with_input_errors() {
    assert!(matches!(MpTrie::from_keys(&["BB", "AA"]), Err(CrawdadError::Input(_))));
    assert!(matches!(MpTrie::from_keys(&["AA", "AA"]), Err(CrawdadError::Input(_))));
}

use crawdad::errors::CrawdadError;
use crawdad::trie::Trie;

fn chars(s: &str) -> Vec<char> {
    s.chars().collect()
}

fn all_matches(trie: &Trie, text: &str) -> Vec<(u32, std::ops::Range<usize>)> {
    let haystack = chars(text);
    let mut matches = vec![];
    for i in 0..haystack.len() {
        for (v, j) in trie.common_prefix_search(&haystack[i..]) {
            matches.push((v, i..i + j));
        }
    }
    matches
}

#[test]
fn trie_test_exact_match() {
    let keys = vec!["世界", "世界中", "世論調査", "統計調査"];
    let trie = Trie::from_keys(&keys).unwrap();
    for (i, key) in keys.iter().enumerate() {
        assert_eq!(trie.exact_match(&chars(key)), Some(u32::try_from(i).unwrap()));
    }
    assert_eq!(trie.exact_match(&chars("世")), None);
    assert_eq!(trie.exact_match(&chars("世論")), None);
    assert_eq!(trie.exact_match(&chars("世界中で")), None);
    assert_eq!(trie.exact_match(&chars("統計")), None);
    assert_eq!(trie.exact_match(&chars("統計調")), None);
    assert_eq!(trie.exact_match(&chars("日本")), None);
}

#[test]
fn trie_test_common_prefix_search() {
    let keys = vec!["世界", "世界中", "世論調査", "統計調査"];
    let trie = Trie::from_keys(&keys).unwrap();
    assert_eq!(
        all_matches(&trie, "世界中の統計世論調査"),
        vec![(0, 0..2), (1, 0..3), (2, 6..10)]
    );
}

#[test]
fn trie_test_serialize() {
    let keys = vec!["世界", "世界中", "世論調査", "統計調査"];
    let trie = Trie::from_keys(&keys).unwrap();

    let bytes = trie.serialize_to_vec();
    assert_eq!(trie.io_bytes(), bytes.len());

    let (other, remain) = Trie::deserialize_from_slice(&bytes);
    assert!(remain.is_empty());

    assert_eq!(trie.mapper, other.mapper);
    assert_eq!(trie.nodes, other.nodes);
}

#[test]
fn trie_test_empty_set() {
    assert!(Trie::from_keys(&[""][0..0]).is_err());
}

#[test]
fn trie_test_empty_char() {
    assert!(Trie::from_keys(&[""]).is_err());
}

#[test]
fn trie_test_empty_key() {
    assert!(Trie::from_keys(&["", "AAA"]).is_err());
}

#[test]
fn trie_test_unsorted_keys() {
    assert!(Trie::from_keys(&["BB", "AA"]).is_err());
    assert!(Trie::from_keys(&["AAA", "AA"]).is_err());
}

#[test]
fn trie_test_duplicate_keys() {
    assert!(Trie::from_keys(&["AA", "AA"]).is_err());
}

#[test]
fn nomap_test_exact_match() {
    let keys = vec!["世界", "世界中", "世直し", "国民"];
    let trie = Trie::from_keys(&keys).unwrap();
    for (i, key) in keys.iter().enumerate() {
        assert_eq!(trie.exact_match(&chars(key)), Some(i as u32));
    }
}

#[test]
fn freqmap_test_exact_match() {
    let keys = vec!["世界", "世界中", "世直し", "国民"];
    let trie = Trie::from_keys(&keys).unwrap();
    for (i, key) in keys.iter().enumerate() {
        assert_eq!(trie.exact_match(&chars(key)), Some(i as u32));
    }
}

#[test]
fn plus_test_exact_match() {
    let keys = vec!["世界", "世界中", "世直し", "国民"];
    let trie = Trie::from_keys(&keys).unwrap();
    for (i, key) in keys.iter().enumerate() {
        assert_eq!(trie.exact_match(&chars(key)), Some(i as u32));
    }
}

#[test]
fn nomap_test_common_prefix_search() {
    let keys = vec!["世界", "世界中", "世直し", "国民"];
    let trie = Trie::from_keys(&keys).unwrap();
    let haystack = chars("国民が世界中で世直し");
    let mut results = vec![];
    for i in 0..haystack.len() {
        for (val, pos) in trie.common_prefix_search(&haystack[i..]) {
            results.push((val, i + pos));
        }
    }
    assert_eq!(results, vec![(3, 2), (0, 5), (1, 6), (2, 10)]);
}

#[test]
fn freqmap_test_common_prefix_search() {
    let keys = vec!["世界", "世界中", "世直し", "国民"];
    let trie = Trie::from_keys(&keys).unwrap();
    let haystack = chars("国民が世界中で世直し");
    let mut results = vec![];
    for i in 0..haystack.len() {
        for (val, pos) in trie.common_prefix_search(&haystack[i..]) {
            results.push((val, i + pos));
        }
    }
    assert_eq!(results, vec![(3, 2), (0, 5), (1, 6), (2, 10)]);
}

#[test]
fn scenario_world_keys() {
    let keys = vec!["世界", "世界中", "国民"];
    let trie = Trie::from_keys(&keys).unwrap();
    assert_eq!(trie.exact_match(&chars("世界中")), Some(1));
    assert_eq!(trie.exact_match(&chars("日本中")), None);
    assert_eq!(
        all_matches(&trie, "国民が世界中にて"),
        vec![(2, 0..2), (0, 3..5), (1, 3..6)]
    );
    assert_eq!(trie.num_elems(), 8);
}

#[test]
fn scenario_unsorted_is_input_error() {
    assert!(matches!(Trie::from_keys(&["BB", "AA"]), Err(CrawdadError::Input(_))));
}

#[test]
fn scenario_duplicate_is_input_error() {
    assert!(matches!(Trie::from_keys(&["AA", "AA"]), Err(CrawdadError::Input(_))));
}

#[test]
fn scenario_single_key_round_trip() {
    let trie = Trie::from_records(&[("X", 0)]).unwrap();
    let bytes = trie.serialize_to_vec();
    let (other, rest) = Trie::deserialize_from_slice(&bytes);
    assert!(rest.is_empty());
    assert_eq!(other.num_elems(), trie.num_elems());
    assert_eq!(other.io_bytes(), trie.io_bytes());
    assert_eq!(other.exact_match(&chars("X")), Some(0));
}

#[test]
fn test_record_iter() {
    let keys = vec!["世界", "世界中", "世論調査", "統計調査"];
    let trie = Trie::from_keys(&keys).unwrap();
    let mut records: Vec<_> = trie.record_iter();
    records.sort();

    assert_eq!(
        records,
        vec![
            (vec!['世', '界'], 0),
            (vec!['世', '界', '中'], 1),
            (vec!['世', '論', '調', '査'], 2),
            (vec!['統', '計', '調', '査'], 3)
        ]
    );
}

#[test]
fn searcher_on_mapped_text() {
    let keys = vec!["世界", "世界中", "世直し", "国民"];
    let trie = Trie::from_keys(&keys).unwrap();
    let mut mapped = vec![];
    trie.map_text(&chars("国民が世界中で世直し"), &mut mapped);
    let mut results = vec![];
    for i in 0..mapped.len() {
        for (val, pos) in trie.common_prefix_searcher(&mapped[i..]) {
            results.push((val, i + pos));
        }
    }
    assert_eq!(results, vec![(3, 2), (0, 5), (1, 6), (2, 10)]);
}

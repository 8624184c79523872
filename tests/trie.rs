use trie::Trie;

fn sample() -> Trie<u8> {
    let test_values: Vec<&[u8]> =
        vec![b"test", b"test2", b"testable", b"cart", b"cartel", b"carp"];
    let mut trie: Trie<u8> = Trie::new();
    for test in test_values {
        trie.add_value(test);
    }
    trie
}

#[test]
fn test_new_trie() {
    let test_values: Vec<&[u8]> =
        vec![b"test", b"test2", b"testable", b"cart", b"cartel", b"carp"];
    let mut trie: Trie<u8> = Trie::new();
    for test in test_values {
        trie.add_value(test);
    }
    let test_cases: Vec<(&[u8], usize, bool)> = vec![
        (b"test", 2, true),
        (b"car", 2, false),
        (b"cart", 1, true),
        (b"carte", 1, false),
    ];
    for case in test_cases {
        let result = trie.get_value(case.0).unwrap();
        assert_eq!(result.num_children(), case.1);
        assert_eq!(result.is_leaf(), case.2);
    }
}

#[test]
fn test_no_value() {
    let test_values: Vec<&[u8]> =
        vec![b"test", b"test2", b"testable", b"cart", b"cartel", b"carp"];
    let mut trie: Trie<u8> = Trie::new();
    for test in test_values {
        trie.add_value(test);
    }
    match trie.get_value(b"cartels") {
        Some(_) => assert!(false, "Trie shouldn't return a value"),
        _ => {}
    }
}

#[test]
fn new_trie_is_empty() {
    let trie: Trie<u8> = Trie::new();
    let root = trie.get_value(b"").unwrap();
    assert!(!root.is_leaf());
    assert_eq!(root.num_children(), 0);
    assert!(trie.get_value(b"a").is_none());
}

#[test]
fn inserted_sequence_is_found_and_marked() {
    let mut trie: Trie<u8> = Trie::new();
    trie.add_value(b"hello");
    let node = trie.get_value(b"hello").unwrap();
    assert!(node.is_leaf());
    assert_eq!(node.num_children(), 0);
}

#[test]
fn inserting_twice_changes_nothing() {
    let mut once = sample();
    once.add_value(b"cab");
    let mut twice = sample();
    twice.add_value(b"cab");
    twice.add_value(b"cab");
    let paths: Vec<&[u8]> = vec![b"", b"c", b"ca", b"cab", b"car", b"cart", b"test"];
    for p in paths {
        let a = once.get_value(p).unwrap();
        let b = twice.get_value(p).unwrap();
        assert_eq!(a.is_leaf(), b.is_leaf());
        assert_eq!(a.num_children(), b.num_children());
    }
    assert!(twice.get_value(b"cabs").is_none());
}

#[test]
fn strict_prefix_is_present_but_unmarked() {
    let trie = sample();
    for p in [&b"t"[..], b"te", b"tes", b"testa", b"testabl", b"c", b"ca", b"carte"] {
        let node = trie.get_value(p).unwrap();
        assert!(!node.is_leaf());
    }
}

#[test]
fn unknown_sequence_is_absent() {
    let trie = sample();
    for p in [&b"x"[..], b"tx", b"tests", b"carpet", b"cartels", b"testable!"] {
        assert!(trie.get_value(p).is_none());
    }
}

#[test]
fn empty_sequence_gives_root() {
    let mut trie = sample();
    let root = trie.get_value(b"").unwrap();
    assert!(!root.is_leaf());
    assert_eq!(root.num_children(), 2);
    trie.add_value(b"");
    let root = trie.get_value(b"").unwrap();
    assert!(root.is_leaf());
    assert_eq!(root.num_children(), 2);
}

#[test]
fn shorter_key_keeps_longer_one() {
    let mut trie: Trie<u8> = Trie::new();
    trie.add_value(b"abc");
    trie.add_value(b"a");
    assert!(trie.get_value(b"a").unwrap().is_leaf());
    assert!(!trie.get_value(b"ab").unwrap().is_leaf());
    assert!(trie.get_value(b"abc").unwrap().is_leaf());
    assert_eq!(trie.get_value(b"a").unwrap().num_children(), 1);
}

#[test]
fn subtree_lookup_continues_below() {
    let trie = sample();
    let car = trie.get_value(b"car").unwrap();
    assert!(car.get_value(b"tel").unwrap().is_leaf());
    assert!(!car.get_value(b"te").unwrap().is_leaf());
    assert!(car.get_value(b"ts").is_none());
}

#[test]
fn char_symbols() {
    let mut trie: Trie<char> = Trie::new();
    let word: Vec<char> = "héllo".chars().collect();
    trie.add_value(&word);
    assert!(trie.get_value(&word).unwrap().is_leaf());
    assert!(!trie.get_value(&word[..2]).unwrap().is_leaf());
    assert!(trie.get_value(&['h', 'e']).is_none());
}

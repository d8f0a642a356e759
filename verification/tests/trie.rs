use ted::trie::Trie;

#[test]
pub fn trie_get() {
    let mut trie = Trie::new();
    trie.insert(b"a", Some(5u32)).unwrap();
    trie.insert(b"ab", None).unwrap();
    trie.insert(b"abc", Some(7u32)).unwrap();

    assert!(trie.get(b"a") == Some(&5));
    assert!(trie.get(b"ab") == None);
    assert!(trie.get(b"abc") == Some(&7));
}

#[test]
pub fn trie_insert_existing() {
    let mut trie = Trie::new();
    trie.insert(b"abc", Some(7u32)).unwrap();
    trie.insert(b"a", Some(5u32)).unwrap();

    assert!(trie.get(b"a") == Some(&5));
    assert!(trie.get(b"ab") == None);
    assert!(trie.get(b"abc") == Some(&7));
}

#[test]
pub fn trie_get_mut() {
    let mut trie = Trie::new();
    trie.insert(b"a", Some(5u32)).unwrap();
    trie.insert(b"ab", None).unwrap();
    trie.insert(b"abc", Some(7u32)).unwrap();

    *trie.get_mut(b"abc").unwrap() = 8;
    assert!(trie.get(b"a") == Some(&5));
    assert!(trie.get(b"ab") == None);
    assert!(trie.get(b"abc") == Some(&8));
}

#[test]
pub fn trie_multiple_root() {
    let mut trie = Trie::new();
    trie.insert(b"abc", Some(7u32)).unwrap();
    trie.insert(b"a", Some(5u32)).unwrap();
    trie.insert(b"bbc", Some(42u32)).unwrap();

    assert!(trie.get(b"a") == Some(&5));
    assert!(trie.get(b"ab") == None);
    assert!(trie.get(b"abc") == Some(&7));
    assert!(trie.get(b"bbc") == Some(&42));
}

#[test]
pub fn trie_refuses_a_key_that_has_a_value() {
    let mut trie = Trie::new();
    assert_eq!(trie.insert(b"", Some(1u32)), Ok(()));
    assert_eq!(trie.insert(b"", Some(2u32)), Err(String::new()));
    assert_eq!(trie.insert(b"ab", Some(3u32)), Ok(()));
    assert_eq!(trie.insert(b"ab", Some(4u32)), Err(String::new()));
    assert_eq!(trie.insert(b"ab", None), Err(String::new()));
    assert_eq!(trie.get(b""), Some(&1));
    assert_eq!(trie.get(b"ab"), Some(&3));
    assert_eq!(trie.get(b"a"), None);
    assert_eq!(trie.get(b"abc"), None);
}

#[test]
pub fn trie_get_mut_of_missing_key() {
    let mut trie: Trie<u32> = Trie::new();
    trie.insert(b"ab", Some(3)).unwrap();
    assert!(trie.get_mut(b"a").is_none());
    assert!(trie.get_mut(b"abc").is_none());
    assert!(trie.get_mut(b"x").is_none());
    assert_eq!(trie.get(b"ab"), Some(&3));
}

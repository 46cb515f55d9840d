use algorithms::trie::Trie;

#[test]
fn test_trie() {
    let key = b"Odobenus rosmarus";
    let value = "Walrus";
    let mut trie = Trie::new();
    trie.insert(key, value);
    assert_eq!(trie.find(key), Some(&value));
    assert_eq!(trie.remove(key), Some(value));
    assert_eq!(trie.find(key), None);
    assert_eq!(trie.remove(key), None);
    trie.insert(key, value);
    assert_eq!(trie.find(key), Some(&value));
}

#[test]
fn new_trie_is_empty() {
    let trie: Trie<u8, u32> = Trie::new();
    assert_eq!(trie.find(b""), None);
    assert_eq!(trie.find(b"a"), None);
    assert!(!trie.contains(b""));
    assert!(!trie.contains(b"abc"));
}

#[test]
fn insert_replaces_the_value() {
    let mut trie = Trie::new();
    trie.insert(b"key", 1);
    trie.insert(b"key", 2);
    assert_eq!(trie.find(b"key"), Some(&2));
    assert_eq!(trie.remove(b"key"), Some(2));
    assert_eq!(trie.remove(b"key"), None);
}

#[test]
fn prefixes_are_keys_of_their_own() {
    let mut trie = Trie::new();
    trie.insert(b"car", 1);
    trie.insert(b"cart", 2);
    trie.insert(b"ca", 3);
    trie.insert(b"dog", 4);
    assert_eq!(trie.find(b"car"), Some(&1));
    assert_eq!(trie.find(b"cart"), Some(&2));
    assert_eq!(trie.find(b"ca"), Some(&3));
    assert_eq!(trie.find(b"dog"), Some(&4));
    assert_eq!(trie.find(b"c"), None);
    assert_eq!(trie.find(b"carts"), None);
    assert_eq!(trie.find(b"do"), None);
    assert!(trie.contains(b"ca"));
    assert!(!trie.contains(b"c"));
    assert_eq!(trie.remove(b"car"), Some(1));
    assert_eq!(trie.find(b"car"), None);
    assert_eq!(trie.find(b"cart"), Some(&2));
    assert_eq!(trie.find(b"ca"), Some(&3));
    assert_eq!(trie.remove(b"c"), None);
    assert_eq!(trie.find(b"ca"), Some(&3));
}

#[test]
fn the_empty_key_is_a_key() {
    let mut trie: Trie<u8, &str> = Trie::new();
    trie.insert(b"", "root");
    trie.insert(b"x", "leaf");
    assert_eq!(trie.find(b""), Some(&"root"));
    assert_eq!(trie.remove(b""), Some("root"));
    assert_eq!(trie.find(b""), None);
    assert_eq!(trie.find(b"x"), Some(&"leaf"));
}

#[test]
fn remove_of_a_missing_key_changes_nothing() {
    let mut trie = Trie::new();
    trie.insert(&[1u32, 2, 3][..], 'a');
    assert_eq!(trie.remove(&[1, 2][..]), None);
    assert_eq!(trie.remove(&[1, 2, 3, 4][..]), None);
    assert_eq!(trie.remove(&[9][..]), None);
    assert_eq!(trie.find(&[1, 2, 3][..]), Some(&'a'));
}

#[test]
fn keys_of_owned_strings() {
    let mut trie = Trie::new();
    let path = vec![String::from("usr"), String::from("bin")];
    trie.insert(&path, 7);
    assert!(trie.contains(&path));
    assert!(!trie.contains(&path[..1]));
    assert_eq!(trie.remove(&path), Some(7));
    assert!(!trie.contains(&path));
}

use treedb::page::{key_le, Kind, Leaf, Page};

fn pair(k: &str, v: &str) -> (Vec<u8>, Vec<u8>) {
    (k.as_bytes().to_vec(), v.as_bytes().to_vec())
}

#[test]
fn new_leaf_is_empty() {
    let page = Page::new_leaf(4096);
    assert_eq!(page.page_size(), 4096);
    match &page.kind {
        Kind::Leaf(leaf) => {
            assert_eq!(leaf.len(), 0);
            assert_eq!(leaf.get(&b"a".to_vec()), None);
        }
    }
}

#[test]
fn leaf_finds_what_was_put() {
    let mut leaf = Leaf::new();
    leaf.put(b"pear".to_vec(), b"3".to_vec());
    leaf.put(b"apple".to_vec(), b"1".to_vec());
    leaf.put(b"fig".to_vec(), b"2".to_vec());
    assert_eq!(leaf.len(), 3);
    assert_eq!(leaf.get(&b"apple".to_vec()), Some(&pair("apple", "1")));
    assert_eq!(leaf.get(&b"fig".to_vec()), Some(&pair("fig", "2")));
    assert_eq!(leaf.get(&b"pear".to_vec()), Some(&pair("pear", "3")));
    assert_eq!(leaf.get(&b"plum".to_vec()), None);
    assert_eq!(leaf.get(&b"".to_vec()), None);
    assert_eq!(leaf.get(&b"appl".to_vec()), None);
    assert_eq!(leaf.get(&b"apples".to_vec()), None);
}

#[test]
fn leaf_keeps_pairs_with_one_key_and_finds_the_last_put() {
    let mut leaf = Leaf::new();
    leaf.put(b"k".to_vec(), b"old".to_vec());
    leaf.put(b"k".to_vec(), b"new".to_vec());
    assert_eq!(leaf.len(), 2);
    assert_eq!(leaf.get(&b"k".to_vec()), Some(&pair("k", "new")));
}

#[test]
fn leaf_holds_the_empty_key() {
    let mut leaf = Leaf::new();
    leaf.put(b"a".to_vec(), b"1".to_vec());
    leaf.put(Vec::new(), b"0".to_vec());
    assert_eq!(leaf.get(&Vec::new()), Some(&(Vec::new(), b"0".to_vec())));
    assert_eq!(leaf.get(&b"a".to_vec()), Some(&pair("a", "1")));
}

#[test]
fn keys_are_in_dictionary_order() {
    assert!(key_le(b"", b""));
    assert!(key_le(b"", b"a"));
    assert!(!key_le(b"a", b""));
    assert!(key_le(b"a", b"a"));
    assert!(key_le(b"a", b"ab"));
    assert!(!key_le(b"ab", b"a"));
    assert!(key_le(b"ab", b"b"));
    assert!(!key_le(b"b", b"ab"));
    assert!(key_le(&[1, 255], &[2, 0]));
    assert!(!key_le(&[2, 0], &[1, 255]));
    // The order is that of the byte strings themselves.
    let words: [&[u8]; 6] = [b"", b"a", b"aa", b"ab", b"b", b"ba"];
    for x in words.iter() {
        for y in words.iter() {
            assert_eq!(key_le(x, y), x <= y);
        }
    }
}

#[test]
fn leaf_with_many_keys() {
    let mut leaf = Leaf::new();
    for n in (0..500u32).rev() {
        leaf.put(n.to_be_bytes().to_vec(), n.to_le_bytes().to_vec());
    }
    for n in 0..500u32 {
        assert_eq!(
            leaf.get(&n.to_be_bytes().to_vec()),
            Some(&(n.to_be_bytes().to_vec(), n.to_le_bytes().to_vec()))
        );
    }
    assert_eq!(leaf.get(&500u32.to_be_bytes().to_vec()), None);
}

#[test]
fn leaf_page_is_written_in_bincode_format() {
    let mut page = Page::new_leaf(4096);
    match &mut page.kind {
        Kind::Leaf(leaf) => {
            leaf.put(b"b".to_vec(), b"xyz".to_vec());
            leaf.put(b"a".to_vec(), Vec::new());
        }
    }
    assert!(page.fits());
    let bytes = page.serialize().unwrap();
    let expected: Vec<u8> = vec![
        2, 0, 0, 0, 0, 0, 0, 0, // two pairs
        1, 0, 0, 0, 0, 0, 0, 0, b'a', // key "a"
        0, 0, 0, 0, 0, 0, 0, 0, // empty value
        1, 0, 0, 0, 0, 0, 0, 0, b'b', // key "b"
        3, 0, 0, 0, 0, 0, 0, 0, b'x', b'y', b'z', // value "xyz"
    ];
    assert_eq!(bytes, expected);
}

#[test]
fn leaf_page_reads_back_what_was_written() {
    let mut page = Page::new_leaf(4096);
    match &mut page.kind {
        Kind::Leaf(leaf) => {
            for n in 0..50u16 {
                leaf.put(n.to_be_bytes().to_vec(), vec![n as u8; 3]);
            }
        }
    }
    let bytes = page.serialize().unwrap();
    assert_eq!(bytes.len(), 8 + 50 * (8 + 2 + 8 + 3));
    let back = Page::deserialize(4096, bytes).unwrap();
    assert_eq!(back.page_size(), 4096);
    match &back.kind {
        Kind::Leaf(leaf) => {
            assert_eq!(leaf.len(), 50);
            for n in 0..50u16 {
                assert_eq!(
                    leaf.get(&n.to_be_bytes().to_vec()),
                    Some(&(n.to_be_bytes().to_vec(), vec![n as u8; 3]))
                );
            }
        }
    }
}

#[test]
fn empty_leaf_page_is_eight_zero_bytes() {
    let page = Page::new_leaf(64);
    assert_eq!(page.serialize().unwrap(), vec![0u8; 8]);
    let back = Page::deserialize(64, vec![0u8; 8]).unwrap();
    match &back.kind {
        Kind::Leaf(leaf) => assert_eq!(leaf.len(), 0),
    }
}

#[test]
fn deserialize_ignores_bytes_behind_the_leaf() {
    let mut bytes = vec![1, 0, 0, 0, 0, 0, 0, 0];
    bytes.extend_from_slice(&[1, 0, 0, 0, 0, 0, 0, 0, b'k']);
    bytes.extend_from_slice(&[1, 0, 0, 0, 0, 0, 0, 0, b'v']);
    bytes.extend_from_slice(&[0xEE; 20]);
    let page = Page::deserialize(4096, bytes).unwrap();
    match &page.kind {
        Kind::Leaf(leaf) => {
            assert_eq!(leaf.len(), 1);
            assert_eq!(leaf.get(&b"k".to_vec()), Some(&pair("k", "v")));
        }
    }
}

#[test]
fn deserialize_rejects_bytes_that_end_too_soon() {
    assert!(matches!(Page::deserialize(4096, Vec::new()), Err(treedb::Error::Serialization)));
    assert!(matches!(Page::deserialize(4096, vec![1, 0, 0]), Err(treedb::Error::Serialization)));
    // one pair announced, none there
    let bytes = vec![1, 0, 0, 0, 0, 0, 0, 0];
    assert!(matches!(Page::deserialize(4096, bytes), Err(treedb::Error::Serialization)));
    // a key of nine bytes announced, one there
    let bytes = vec![1, 0, 0, 0, 0, 0, 0, 0, 9, 0, 0, 0, 0, 0, 0, 0, b'k'];
    assert!(matches!(Page::deserialize(4096, bytes), Err(treedb::Error::Serialization)));
}

#[test]
fn deserialize_rejects_pairs_out_of_order() {
    let mut bytes = vec![2, 0, 0, 0, 0, 0, 0, 0];
    for key in [b'b', b'a'] {
        bytes.extend_from_slice(&[1, 0, 0, 0, 0, 0, 0, 0, key]);
        bytes.extend_from_slice(&[0, 0, 0, 0, 0, 0, 0, 0]);
    }
    assert!(matches!(Page::deserialize(4096, bytes), Err(treedb::Error::Serialization)));
    assert!(Page::from_nodes(4096, vec![pair("b", ""), pair("a", "")]).is_err());
    assert!(Page::from_nodes(4096, vec![pair("a", ""), pair("a", ""), pair("b", "")]).is_ok());
    assert!(Page::from_nodes(4096, Vec::new()).is_ok());
}

#[test]
fn fits_compares_the_written_size_with_the_page_size() {
    // one pair with a one-byte key and value takes 8 + 9 + 9 = 26 bytes
    let nodes = vec![pair("k", "v")];
    assert!(Page::from_nodes(27, nodes.clone()).unwrap().fits());
    assert!(!Page::from_nodes(26, nodes.clone()).unwrap().fits());
    assert!(!Page::from_nodes(0, nodes).unwrap().fits());
    assert!(Page::new_leaf(9).fits());
    assert!(!Page::new_leaf(8).fits());
    assert_eq!(Page::from_nodes(27, vec![pair("k", "v")]).unwrap().serialize().unwrap().len(), 26);
}

#[test]
fn default_leaf_is_empty() {
    let leaf = Leaf::default();
    assert_eq!(leaf.len(), 0);
    assert_eq!(leaf.get(&b"a".to_vec()), None);
    let page = Page::from_nodes(64, Vec::new()).unwrap();
    assert!(matches!(page.kind, Kind::Leaf(ref inner) if inner.len() == leaf.len()));
}

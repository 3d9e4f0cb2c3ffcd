use treedb::tree::node::{Node, NodeMetadata, PageId};

fn leaf_of(keys: &[u64]) -> Node<u64> {
    let mut node: Node<u64> = Node::new_leaf();
    for key in keys {
        node.insert_into_leaf(*key, *key * 10);
    }
    node
}

#[test]
fn new_nodes_are_empty() {
    let leaf: Node<u64> = Node::new_leaf();
    assert!(leaf.metadata.is_leaf);
    assert_eq!(leaf.metadata.num_keys, 0);
    assert_eq!(leaf.metadata.next_leaf_pos, PageId(0));
    assert!(leaf.keys.is_empty() && leaf.values.is_empty() && leaf.children.is_empty());
    let inner: Node<u64> = Node::new_internal();
    assert!(!inner.metadata.is_leaf);
    assert_eq!(inner.metadata.num_keys, 0);
    assert!(inner.keys.is_empty() && inner.values.is_empty() && inner.children.is_empty());
}

#[test]
fn insert_into_leaf_keeps_the_keys_in_order() {
    let node = leaf_of(&[30, 10, 20, 40, 5]);
    assert_eq!(node.keys, vec![5, 10, 20, 30, 40]);
    assert_eq!(node.values, vec![Some(50), Some(100), Some(200), Some(300), Some(400)]);
    assert_eq!(node.metadata.num_keys, 5);
    assert!(node.children.is_empty());
}

#[test]
fn insert_into_leaf_puts_a_key_before_its_equals() {
    let mut node: Node<&str> = Node::new_leaf();
    node.insert_into_leaf(7, "first");
    node.insert_into_leaf(9, "nine");
    node.insert_into_leaf(7, "second");
    assert_eq!(node.keys, vec![7, 7, 9]);
    assert_eq!(node.values, vec![Some("second"), Some("first"), Some("nine")]);
    assert_eq!(node.metadata.num_keys, 3);
}

#[test]
fn find_child_goes_behind_the_last_key_not_above() {
    let node = leaf_of(&[10, 20, 30]);
    assert_eq!(node.find_child(&0), 0);
    assert_eq!(node.find_child(&9), 0);
    assert_eq!(node.find_child(&10), 1);
    assert_eq!(node.find_child(&15), 1);
    assert_eq!(node.find_child(&20), 2);
    assert_eq!(node.find_child(&29), 2);
    assert_eq!(node.find_child(&30), 3);
    assert_eq!(node.find_child(&u64::MAX), 3);
    let empty: Node<u64> = Node::new_internal();
    assert_eq!(empty.find_child(&1), 0);
}

#[test]
fn find_child_passes_every_equal_key() {
    let node = leaf_of(&[10, 20, 20, 20, 30]);
    assert_eq!(node.find_child(&20), 4);
    assert_eq!(node.find_child(&19), 1);
}

#[test]
fn metadata_is_plain_data() {
    let meta = NodeMetadata { is_leaf: true, num_keys: 2, next_leaf_pos: PageId(9) };
    let copy = meta;
    assert_eq!(copy.num_keys, meta.num_keys);
    assert_eq!(copy.next_leaf_pos, PageId(9));
}

use treedb::pager::memory::MemoryFile;
use treedb::pager::{File, LogicalPageId, Pager};
use treedb::tree::{Tree, LEAF_SPACE};
use treedb::Error;

fn pair(k: &str, v: &str) -> (Vec<u8>, Vec<u8>) {
    (k.as_bytes().to_vec(), v.as_bytes().to_vec())
}

#[test]
fn new_tree_is_empty_and_takes_the_first_page() {
    let tree = Tree::new(MemoryFile::new()).unwrap();
    assert_eq!(tree.root_page_id(), LogicalPageId(1));
    assert_eq!(tree.get(&b"a".to_vec()).unwrap(), None);
    assert!(tree.fits());
}

#[test]
fn tree_finds_what_was_put() {
    let mut tree = Tree::new(MemoryFile::new()).unwrap();
    tree.put(b"one".to_vec(), b"1".to_vec()).unwrap();
    tree.put(b"two".to_vec(), b"2".to_vec()).unwrap();
    tree.put(b"three".to_vec(), b"3".to_vec()).unwrap();
    assert_eq!(tree.get(&b"one".to_vec()).unwrap(), Some(&pair("one", "1")));
    assert_eq!(tree.get(&b"two".to_vec()).unwrap(), Some(&pair("two", "2")));
    assert_eq!(tree.get(&b"three".to_vec()).unwrap(), Some(&pair("three", "3")));
    assert_eq!(tree.get(&b"four".to_vec()).unwrap(), None);
}

#[test]
fn flushed_tree_is_found_again() {
    let mut tree = Tree::new(MemoryFile::new()).unwrap();
    for n in 0..100u8 {
        tree.put(vec![n], vec![n, n, n]).unwrap();
    }
    assert!(tree.fits());
    tree.flush_all().unwrap();
    let root = tree.root_page_id();
    let file = tree.into_file();
    assert_eq!(file.len().unwrap(), 2 * 4096);
    // the root page: page header of a tree page, then the leaf
    assert_eq!(&file.as_bytes()[4096..4104], &[0, 0, 0, 0, 1, 1, 0, 0]);
    assert_eq!(&file.as_bytes()[4104..4112], &[100, 0, 0, 0, 0, 0, 0, 0]);
    assert_eq!(&file.as_bytes()[4112..4121], &[1, 0, 0, 0, 0, 0, 0, 0, 0]);
    assert_eq!(&file.as_bytes()[4121..4132], &[3, 0, 0, 0, 0, 0, 0, 0, 0, 0, 0]);
    // committed version 2, two pages
    assert_eq!(&file.as_bytes()[6..14], &[2, 0, 0, 0, 0, 0, 0, 0]);
    assert_eq!(&file.as_bytes()[14..22], &[2, 0, 0, 0, 0, 0, 0, 0]);

    let tree = Tree::open(file, root).unwrap();
    for n in 0..100u8 {
        assert_eq!(tree.get(&vec![n]).unwrap(), Some(&(vec![n], vec![n, n, n])));
    }
    assert_eq!(tree.get(&vec![100]).unwrap(), None);
}

#[test]
fn what_was_not_flushed_is_not_found_again() {
    let mut tree = Tree::new(MemoryFile::new()).unwrap();
    tree.put(b"kept".to_vec(), b"yes".to_vec()).unwrap();
    tree.flush_all().unwrap();
    tree.put(b"lost".to_vec(), b"yes".to_vec()).unwrap();
    let root = tree.root_page_id();
    let tree = Tree::open(tree.into_file(), root).unwrap();
    assert_eq!(tree.get(&b"kept".to_vec()).unwrap(), Some(&pair("kept", "yes")));
    assert_eq!(tree.get(&b"lost".to_vec()).unwrap(), None);
}

#[test]
fn tree_tells_when_the_root_outgrows_its_page() {
    let mut tree = Tree::new(MemoryFile::new()).unwrap();
    assert_eq!(LEAF_SPACE, 4088);
    // 8 bytes for the count, 8 + 8 for the two lengths, 4063 for the value: 4087
    tree.put(Vec::new(), vec![7; 4063]).unwrap();
    assert!(tree.fits());
    tree.flush_all().unwrap();
    tree.put(b"x".to_vec(), Vec::new()).unwrap();
    assert!(!tree.fits());
}

#[test]
fn open_rejects_a_page_that_holds_no_tree() {
    // no such page
    assert!(matches!(
        Tree::open(MemoryFile::new(), LogicalPageId(1)),
        Err(Error::IndexOutofBounds(LogicalPageId(1)))
    ));
    // a page of zeros is a queue page by its header
    let mut pager = Pager::recover(MemoryFile::new()).unwrap();
    let id = pager.new_page_id();
    let page = pager.new_page_buffer().unwrap();
    pager.update_page(id, page).unwrap();
    pager.commit().unwrap();
    assert!(matches!(Tree::open(pager.into_file(), id), Err(Error::Serialization)));
    // a tree page whose leaf ends too soon
    let mut pager = Pager::recover(MemoryFile::new()).unwrap();
    let id = pager.new_page_id();
    let mut page = pager.new_page_buffer().unwrap();
    page.init_as(treedb::pager::page::PageType::Btree);
    page.buf_mut().fill(0xFF);
    pager.update_page(id, page).unwrap();
    pager.commit().unwrap();
    assert!(matches!(Tree::open(pager.into_file(), id), Err(Error::Serialization)));
}

#[test]
fn open_tells_a_damaged_file_from_a_missing_page() {
    // a file of a page or more must begin with a valid header
    let file = MemoryFile::from_bytes(vec![0xAB; 8192]);
    assert!(matches!(Tree::open(file, LogicalPageId(1)), Err(Error::Serialization)));
    let file = MemoryFile::from_bytes(vec![0xAB; 8192]);
    assert!(matches!(Tree::new(file), Err(Error::Serialization)));
    // page 0 is the header's and never a root; nor is a page past the last
    let mut tree = Tree::new(MemoryFile::new()).unwrap();
    tree.put(b"k".to_vec(), b"v".to_vec()).unwrap();
    tree.flush_all().unwrap();
    let bytes = tree.into_file().as_bytes().to_vec();
    assert!(matches!(
        Tree::open(MemoryFile::from_bytes(bytes.clone()), LogicalPageId(0)),
        Err(Error::IndexOutofBounds(LogicalPageId(0)))
    ));
    assert!(matches!(
        Tree::open(MemoryFile::from_bytes(bytes.clone()), LogicalPageId(2)),
        Err(Error::IndexOutofBounds(LogicalPageId(2)))
    ));
    let tree = Tree::open(MemoryFile::from_bytes(bytes), LogicalPageId(1)).unwrap();
    assert_eq!(tree.get(&b"k".to_vec()).unwrap(), Some(&pair("k", "v")));
}

#[test]
fn a_second_tree_takes_the_next_page() {
    let mut tree = Tree::new(MemoryFile::new()).unwrap();
    tree.flush_all().unwrap();
    let file = tree.into_file();
    assert_eq!(file.len().unwrap(), 8192);
    let tree = Tree::new(file).unwrap();
    assert_eq!(tree.root_page_id(), LogicalPageId(2));
}

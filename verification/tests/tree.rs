use cow_btree::{BNode, BTree, BTreeError, BNODE_LEAF, BNODE_NODE, BTREE_PAGE_SIZE};

fn node_at(tree: &BTree, ptr: u64) -> BNode {
    match tree.get(ptr) {
        Ok(n) => n,
        Err(e) => panic!("page {} is missing: {:?}", ptr, e),
    }
}

/// The number of levels above the leaves, on the leftmost path.
fn height(tree: &BTree) -> usize {
    let mut node = node_at(tree, tree.root());
    let mut h = 0;
    while node.btype() == BNODE_NODE {
        node = node_at(tree, node.get_ptr(0));
        h += 1;
    }
    h
}

/// Walks the tree below a page; checks on the way that every page fits, that
/// all leaves are at the same depth and that each parent key is the first key
/// of its child.
fn walk(tree: &BTree, ptr: u64, depth: usize, leaf_depth: &mut Option<usize>, out: &mut Vec<(Vec<u8>, Vec<u8>)>) {
    let node = node_at(tree, ptr);
    assert!(node.n_bytes() as usize <= BTREE_PAGE_SIZE);
    if node.btype() == BNODE_LEAF {
        match leaf_depth {
            Some(d) => assert_eq!(*d, depth),
            None => *leaf_depth = Some(depth),
        }
        for i in 0..node.nkeys() {
            out.push((node.get_key(i), node.get_val(i)));
        }
    } else {
        assert_eq!(node.btype(), BNODE_NODE);
        assert!(node.nkeys() >= 1);
        for i in 0..node.nkeys() {
            let kid = node_at(tree, node.get_ptr(i));
            assert!(kid.nkeys() >= 1);
            assert_eq!(kid.get_key(0), node.get_key(i));
            assert_eq!(node.get_val(i), Vec::<u8>::new());
            walk(tree, node.get_ptr(i), depth + 1, leaf_depth, out);
        }
    }
}

/// The ids of the page and of the pages below it.
fn pages_of(tree: &BTree, ptr: u64) -> Vec<u64> {
    let mut all = vec![ptr];
    let node = node_at(tree, ptr);
    if node.btype() == BNODE_NODE {
        for i in 0..node.nkeys() {
            all.extend(pages_of(tree, node.get_ptr(i)));
        }
    }
    all
}

/// The number of leaves below a page.
fn leaves(tree: &BTree, ptr: u64) -> usize {
    let node = node_at(tree, ptr);
    if node.btype() == BNODE_LEAF {
        1
    } else {
        (0..node.nkeys()).map(|i| leaves(tree, node.get_ptr(i))).sum()
    }
}

fn walk_from(tree: &BTree, ptr: u64) -> Vec<(Vec<u8>, Vec<u8>)> {
    let mut out = Vec::new();
    let mut leaf_depth = None;
    walk(tree, ptr, 0, &mut leaf_depth, &mut out);
    out
}

fn put(tree: &mut BTree, key: &[u8], val: &[u8]) -> u16 {
    match tree.insert(key.to_vec(), val.to_vec()) {
        Ok(n) => n,
        Err(e) => panic!("insert failed: {:?}", e),
    }
}

#[test]
fn empty_tree_is_one_empty_leaf() {
    let tree = BTree::empty();
    assert_eq!(tree.root(), 1);
    assert_eq!(tree.page_count(), 1);
    let root = node_at(&tree, 1);
    assert_eq!(root.btype(), 2);
    assert_eq!(root.nkeys(), 0);
    assert_eq!(tree.traverse(), Vec::new());
    assert_eq!(height(&tree), 0);
}

#[test]
fn store_allocates_fetches_and_releases() {
    let mut tree = BTree::empty();
    let mut node = BNode::page();
    node.set_header(BNODE_LEAF, 1);
    node.node_append_kv(0, 0, b"k".to_vec(), b"v".to_vec());
    let id = tree.new(&node);
    assert_eq!(id, 2);
    assert_eq!(tree.page_count(), 2);
    let back = node_at(&tree, id);
    assert_eq!(back.encode(), node.encode());
    assert_eq!(tree.new(&node), 3);
    tree.del(id);
    // a released page stays readable until the page manager reclaims it
    assert_eq!(node_at(&tree, id).get_key(0), b"k".to_vec());
    assert_eq!(tree.root(), 1);
}

#[test]
fn del_marks_pages_in_order() {
    let mut tree = BTree::empty();
    assert_eq!(tree.released(), &Vec::<u64>::new());
    tree.del(7);
    tree.del(1);
    tree.del(7);
    assert_eq!(tree.released(), &vec![7, 1, 7]);
    assert_eq!(tree.page_count(), 1);
}

#[test]
fn an_insert_releases_the_pages_it_replaces() {
    let mut tree = BTree::empty();
    // the root leaf is page 1; each insert into a leaf root replaces it
    put(&mut tree, b"a", b"1");
    assert_eq!(tree.root(), 2);
    assert_eq!(tree.released(), &vec![1]);
    put(&mut tree, b"b", b"2");
    assert_eq!(tree.root(), 3);
    assert_eq!(tree.released(), &vec![1, 2]);
    // grow the tree to two levels
    let mut tree = BTree::empty();
    for i in 0..40usize {
        put(&mut tree, format!("k{:03}", i).as_bytes(), &vec![3u8; 300]);
    }
    assert_eq!(height(&tree), 1);
    let root = tree.root();
    let root_node = node_at(&tree, root);
    let key = b"k020x".to_vec();
    let kid = root_node.get_ptr(root_node.node_lookup_le(&key));
    let before = tree.released().clone();
    put(&mut tree, &key, b"v");
    let mut expected = before;
    expected.push(kid);
    expected.push(root);
    assert_eq!(tree.released(), &expected);
    // nothing that the new root reaches was released
    for p in pages_of(&tree, tree.root()) {
        assert!(!tree.released().contains(&p));
    }
}

#[test]
fn no_page_of_the_tree_is_ever_released() {
    let mut tree = BTree::empty();
    for step in 0..150usize {
        let i = (step * 61) % 150;
        let mut key = format!("{:04}", i).into_bytes();
        key.resize(400, b'-');
        put(&mut tree, &key, &vec![i as u8; 1500]);
        let owned = pages_of(&tree, tree.root());
        for p in owned.iter() {
            assert!(!tree.released().contains(p));
        }
        // every page is owned or released, and none is both
        assert_eq!(owned.len() + tree.released().len(), tree.page_count());
    }
    assert!(height(&tree) >= 2);
}

#[test]
fn get_of_an_unknown_page_fails() {
    let tree = BTree::empty();
    assert_eq!(tree.get(0).err(), Some(BTreeError::PageNotFound));
    assert_eq!(tree.get(2).err(), Some(BTreeError::PageNotFound));
    assert_eq!(tree.get(u64::MAX).err(), Some(BTreeError::PageNotFound));
    assert!(tree.get(1).is_ok());
}

#[test]
fn new_stores_a_page_sized_copy() {
    let mut tree = BTree::empty();
    let mut node = BNode::scratch();
    node.set_header(BNODE_LEAF, 2);
    node.node_append_kv(0, 0, b"a".to_vec(), b"1".to_vec());
    node.node_append_kv(1, 0, b"b".to_vec(), b"2".to_vec());
    let id = tree.new(&node);
    node.set_header(BNODE_LEAF, 0);
    let back = node_at(&tree, id);
    assert_eq!(back.nkeys(), 2);
    assert_eq!(back.get_val(1), b"2".to_vec());
}

#[test]
fn oversized_entries_are_rejected() {
    let mut tree = BTree::empty();
    put(&mut tree, b"a", b"1");
    let pages = tree.page_count();
    let root = tree.root();
    assert_eq!(tree.insert(vec![1; 1001], vec![]).err(), Some(BTreeError::OversizedEntry));
    assert_eq!(tree.insert(vec![1], vec![0; 3001]).err(), Some(BTreeError::OversizedEntry));
    assert_eq!(tree.insert(vec![1; 2000], vec![0; 4000]).err(), Some(BTreeError::OversizedEntry));
    assert_eq!(tree.page_count(), pages);
    assert_eq!(tree.root(), root);
    assert_eq!(tree.traverse(), vec![(b"a".to_vec(), b"1".to_vec())]);
    assert_eq!(tree.insert(vec![1; 1000], vec![0; 3000]), Ok(1));
    assert_eq!(tree.traverse().len(), 2);
}

#[test]
fn scenario_a_twenty_six_keys_in_one_leaf() {
    let mut tree = BTree::empty();
    for c in b'a'..=b'z' {
        assert_eq!(put(&mut tree, &[c], &[c, c, c, c]), 1);
    }
    let root = node_at(&tree, tree.root());
    assert_eq!(root.btype(), 2);
    assert_eq!(root.nkeys(), 26);
    assert_eq!(root.n_bytes(), 4 + 26 * 10 + 26 * 9);
    assert_eq!(height(&tree), 0);
    let all = tree.traverse();
    assert_eq!(all.len(), 26);
    for (i, (k, v)) in all.iter().enumerate() {
        let c = b'a' + i as u8;
        assert_eq!(k, &vec![c]);
        assert_eq!(v, &vec![c, c, c, c]);
    }
}

#[test]
fn scenario_b_five_hundred_large_values() {
    let mut tree = BTree::empty();
    let mut splits = 0;
    let mut expected: Vec<(Vec<u8>, Vec<u8>)> = Vec::new();
    for step in 0..500usize {
        let i = (step * 7919) % 500;
        let key = format!("key{:04}", i).into_bytes();
        let val = vec![(i % 251) as u8; 900];
        let before = height(&tree);
        let n = put(&mut tree, &key, &val);
        if n > 1 {
            splits += 1;
            assert_eq!(height(&tree), before + 1);
        } else {
            assert_eq!(height(&tree), before);
        }
        expected.push((key, val));
    }
    expected.sort();
    // the root was split at least once, so the tree has several levels
    assert!(splits >= 1);
    assert!(height(&tree) >= 1);
    let root = node_at(&tree, tree.root());
    assert_eq!(root.btype(), 1);
    // four pairs of this size fit a leaf, so there are at least 125 leaves,
    // each but the first made by a split
    assert!(leaves(&tree, tree.root()) >= 125);
    let all = tree.traverse();
    assert_eq!(all.len(), 500);
    assert_eq!(all, expected);
    assert_eq!(walk_from(&tree, tree.root()), expected);
}

#[test]
fn scenario_c_update_of_a_key() {
    let mut tree = BTree::empty();
    put(&mut tree, b"a", b"1");
    put(&mut tree, b"b", b"2");
    put(&mut tree, b"c", b"3");
    assert_eq!(node_at(&tree, tree.root()).nkeys(), 3);
    put(&mut tree, b"b", b"another");
    let root = node_at(&tree, tree.root());
    assert_eq!(root.nkeys(), 3);
    assert_eq!(
        tree.traverse(),
        vec![
            (b"a".to_vec(), b"1".to_vec()),
            (b"b".to_vec(), b"another".to_vec()),
            (b"c".to_vec(), b"3".to_vec()),
        ]
    );
    put(&mut tree, b"a", b"");
    assert_eq!(tree.traverse()[0], (b"a".to_vec(), Vec::new()));
    assert_eq!(tree.traverse().len(), 3);
}

#[test]
fn increasing_run_comes_back_in_order() {
    let mut tree = BTree::empty();
    let mut expected = Vec::new();
    let mut h = 0;
    for i in 0..300usize {
        let key = format!("{:06}", i).into_bytes();
        let val = vec![i as u8; 200];
        let n = put(&mut tree, &key, &val);
        if n > 1 {
            h += 1;
        }
        assert_eq!(height(&tree), h);
        expected.push((key, val));
    }
    assert!(h >= 1);
    assert_eq!(tree.traverse(), expected);
    assert_eq!(walk_from(&tree, tree.root()), expected);
}

#[test]
fn decreasing_run_comes_back_in_order() {
    let mut tree = BTree::empty();
    let mut expected = Vec::new();
    for i in (0..200usize).rev() {
        let key = format!("{:06}", i).into_bytes();
        let val = vec![i as u8; 300];
        put(&mut tree, &key, &val);
        expected.push((key, val));
    }
    expected.reverse();
    assert_eq!(tree.traverse(), expected);
    assert_eq!(walk_from(&tree, tree.root()), expected);
}

#[test]
fn a_smaller_key_goes_before_the_first() {
    let mut tree = BTree::empty();
    put(&mut tree, b"m", b"1");
    put(&mut tree, b"a", b"2");
    put(&mut tree, b"", b"3");
    put(&mut tree, b"z", b"4");
    assert_eq!(
        tree.traverse(),
        vec![
            (b"".to_vec(), b"3".to_vec()),
            (b"a".to_vec(), b"2".to_vec()),
            (b"m".to_vec(), b"1".to_vec()),
            (b"z".to_vec(), b"4".to_vec()),
        ]
    );
}

#[test]
fn updates_in_a_deep_tree() {
    let mut tree = BTree::empty();
    for i in 0..120usize {
        put(&mut tree, format!("k{:03}", i).as_bytes(), &vec![1u8; 500]);
    }
    assert!(height(&tree) >= 1);
    let count = tree.traverse().len();
    put(&mut tree, b"k000", b"first");
    put(&mut tree, b"k060", b"middle");
    put(&mut tree, b"k119", b"last");
    let all = tree.traverse();
    assert_eq!(all.len(), count);
    assert_eq!(all[0], (b"k000".to_vec(), b"first".to_vec()));
    assert_eq!(all[60], (b"k060".to_vec(), b"middle".to_vec()));
    assert_eq!(all[119], (b"k119".to_vec(), b"last".to_vec()));
    assert_eq!(all[1], (b"k001".to_vec(), vec![1u8; 500]));
}

#[test]
fn entries_of_the_greatest_size() {
    let mut tree = BTree::empty();
    let mut expected = Vec::new();
    for i in 0..12u8 {
        let mut key = vec![b'k'; 1000];
        key[999] = i;
        let val = vec![i; 3000];
        put(&mut tree, &key, &val);
        expected.push((key, val));
    }
    assert_eq!(tree.traverse(), expected);
    assert_eq!(walk_from(&tree, tree.root()), expected);
    // a small key between two of the greatest size
    let mut small = vec![b'k'; 999];
    small.push(5);
    small.pop();
    put(&mut tree, &small, b"s");
    let all = walk_from(&tree, tree.root());
    assert_eq!(all.len(), 13);
    assert_eq!(all[0], (small, b"s".to_vec()));
}

#[test]
fn a_tree_of_several_levels() {
    // keys of the greatest size: four links fill an internal node
    let mut tree = BTree::empty();
    let mut expected = Vec::new();
    let mut h = 0;
    for step in 0..90usize {
        let i = (step * 37) % 90;
        let mut key = format!("{:04}", i).into_bytes();
        key.resize(1000, b'.');
        let val = vec![i as u8; 3000];
        let n = put(&mut tree, &key, &val);
        assert!(n >= 1 && n <= 3);
        if n > 1 {
            h += 1;
        }
        assert_eq!(height(&tree), h);
        expected.push((key, val));
    }
    expected.sort();
    assert!(h >= 3);
    assert_eq!(leaves(&tree, tree.root()), 90);
    assert_eq!(walk_from(&tree, tree.root()), expected);
    assert_eq!(tree.traverse(), expected);
}

#[test]
fn new_stores_the_page_image() {
    let mut tree = BTree::empty();
    let mut node = BNode::scratch();
    node.set_header(BNODE_LEAF, 1);
    node.node_append_kv(0, 0, b"key".to_vec(), b"value".to_vec());
    let image = node.encode();
    let id = tree.new(&node);
    assert_eq!(node_at(&tree, id).encode(), image);
    assert_eq!(node.to_page().encode(), image);
}

#[test]
fn an_insert_changes_no_page_of_the_old_tree() {
    let mut tree = BTree::empty();
    for i in 0..100usize {
        put(&mut tree, format!("k{:03}", i).as_bytes(), &vec![2u8; 400]);
    }
    let old_root = tree.root();
    let old_pages = tree.page_count();
    let before = walk_from(&tree, old_root);
    let images: Vec<Vec<u8>> = (1..=old_pages as u64).map(|p| node_at(&tree, p).encode()).collect();
    put(&mut tree, b"k050x", b"new");
    put(&mut tree, b"k010", b"changed");
    assert!(tree.root() != old_root);
    assert!(tree.page_count() > old_pages);
    for p in 1..=old_pages as u64 {
        assert_eq!(node_at(&tree, p).encode(), images[(p - 1) as usize]);
    }
    // the old root still leads to the tree as it was
    assert_eq!(walk_from(&tree, old_root), before);
    assert_eq!(walk_from(&tree, tree.root()).len(), 101);
}

#[test]
fn insert_all_puts_every_pair() {
    let mut tree = BTree::empty();
    let pairs: Vec<(Vec<u8>, Vec<u8>)> = vec![
        (b"b".to_vec(), b"1".to_vec()),
        (b"a".to_vec(), b"2".to_vec()),
        (b"b".to_vec(), b"3".to_vec()),
    ];
    assert_eq!(tree.insert_all(&pairs), Ok(()));
    assert_eq!(
        tree.traverse(),
        vec![(b"a".to_vec(), b"2".to_vec()), (b"b".to_vec(), b"3".to_vec())]
    );
}

#[test]
fn insert_all_of_a_sorted_run_holds_the_run() {
    let mut tree = BTree::empty();
    let run: Vec<(Vec<u8>, Vec<u8>)> =
        (0..64u8).map(|i| (vec![b'k', i], vec![i; 120])).collect();
    assert_eq!(tree.insert_all(&run), Ok(()));
    assert_eq!(tree.traverse(), run);
    assert!(height(&tree) >= 1);
}

#[test]
fn insert_all_stops_at_an_oversized_entry() {
    let mut tree = BTree::empty();
    let pairs: Vec<(Vec<u8>, Vec<u8>)> = vec![
        (b"a".to_vec(), b"1".to_vec()),
        (vec![0u8; 1001], b"2".to_vec()),
        (b"c".to_vec(), b"3".to_vec()),
    ];
    assert_eq!(tree.insert_all(&pairs), Err(BTreeError::OversizedEntry));
    assert_eq!(tree.traverse(), vec![(b"a".to_vec(), b"1".to_vec())]);
}

#[test]
fn tree_insert_returns_the_grown_leaf() {
    let mut tree = BTree::empty();
    put(&mut tree, b"b", b"2");
    let root = node_at(&tree, tree.root());
    let pages = tree.page_count();
    let grown = tree.tree_insert(&root, b"a".to_vec(), b"1".to_vec());
    assert_eq!(grown.btype(), 2);
    assert_eq!(grown.nkeys(), 2);
    assert_eq!(grown.get_key(0), b"a".to_vec());
    assert_eq!(grown.get_key(1), b"b".to_vec());
    // a leaf is grown without touching the store
    assert_eq!(tree.page_count(), pages);
    let same = tree.tree_insert(&root, b"b".to_vec(), b"two".to_vec());
    assert_eq!(same.nkeys(), 1);
    assert_eq!(same.get_val(0), b"two".to_vec());
}

#[test]
fn replace_kid_links_the_new_children() {
    let mut tree = BTree::empty();
    let mut old = BNode::page();
    old.set_header(BNODE_NODE, 3);
    old.node_append_kv(0, 10, b"a".to_vec(), Vec::new());
    old.node_append_kv(1, 20, b"h".to_vec(), Vec::new());
    old.node_append_kv(2, 30, b"q".to_vec(), Vec::new());
    let mut kids = Vec::new();
    for (k, v) in [(b"h", b"1"), (b"k", b"2"), (b"n", b"3")] {
        let mut kid = BNode::page();
        kid.set_header(BNODE_LEAF, 1);
        kid.node_append_kv(0, 0, k.to_vec(), v.to_vec());
        kids.push(kid);
    }
    let mut new = BNode::scratch();
    tree.node_replace_kid_n(&mut new, &old, 1, kids);
    assert_eq!(new.btype(), 1);
    assert_eq!(new.nkeys(), 5);
    let keys: Vec<Vec<u8>> = (0..5).map(|i| new.get_key(i)).collect();
    assert_eq!(keys, vec![b"a".to_vec(), b"h".to_vec(), b"k".to_vec(), b"n".to_vec(), b"q".to_vec()]);
    let ptrs: Vec<u64> = (0..5).map(|i| new.get_ptr(i)).collect();
    assert_eq!(ptrs, vec![10, 2, 3, 4, 30]);
    for i in 0..5 {
        assert_eq!(new.get_val(i), Vec::<u8>::new());
    }
    assert_eq!(tree.page_count(), 4);
    assert_eq!(node_at(&tree, 3).get_key(0), b"k".to_vec());
    assert_eq!(new.n_bytes(), 4 + 50 + 5 * 5);
}

#[test]
fn replace_kid_with_one_child() {
    let mut tree = BTree::empty();
    let mut old = BNode::page();
    old.set_header(BNODE_NODE, 1);
    old.node_append_kv(0, 1, b"m".to_vec(), Vec::new());
    let mut kid = BNode::page();
    kid.set_header(BNODE_LEAF, 2);
    kid.node_append_kv(0, 0, b"c".to_vec(), b"1".to_vec());
    kid.node_append_kv(1, 0, b"m".to_vec(), b"2".to_vec());
    let mut new = BNode::scratch();
    tree.node_replace_kid_n(&mut new, &old, 0, vec![kid]);
    assert_eq!(new.nkeys(), 1);
    assert_eq!(new.get_key(0), b"c".to_vec());
    assert_eq!(new.get_ptr(0), 2);
}

#[test]
fn node_insert_grows_the_child_and_marks_the_old_page() {
    let mut tree = BTree::empty();
    for i in 0..40usize {
        put(&mut tree, format!("k{:03}", i).as_bytes(), &vec![3u8; 300]);
    }
    assert_eq!(height(&tree), 1);
    let root = node_at(&tree, tree.root());
    let key = b"k005x".to_vec();
    let idx = root.node_lookup_le(&key);
    let old_kid = root.get_ptr(idx);
    let mut new = BNode::scratch();
    tree.node_insert(&mut new, &root, idx, key.clone(), b"v".to_vec());
    assert_eq!(new.btype(), 1);
    assert!(new.nkeys() >= root.nkeys());
    let new_kid = node_at(&tree, new.get_ptr(idx));
    let at = new_kid.node_lookup_le(&key);
    assert_eq!(new_kid.get_key(at), key);
    assert_eq!(new_kid.get_val(at), b"v".to_vec());
    assert!(new.get_ptr(idx) != old_kid);
    // the old child is still there, without the key
    let kid = node_at(&tree, old_kid);
    let at = kid.node_lookup_le(&key);
    assert!(kid.get_key(at) != key);
}

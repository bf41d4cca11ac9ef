use cow_btree::{BNode, BNODE_LEAF};

fn leaf_of(pairs: &[(&[u8], &[u8])]) -> BNode {
    let mut node = BNode::page();
    node.set_header(BNODE_LEAF, pairs.len() as u16);
    for (i, (k, v)) in pairs.iter().enumerate() {
        node.node_append_kv(i as u16, 0, k.to_vec(), v.to_vec());
    }
    node
}

fn entries(node: &BNode) -> Vec<(Vec<u8>, Vec<u8>)> {
    (0..node.nkeys()).map(|i| (node.get_key(i), node.get_val(i))).collect()
}

fn pairs(list: &[(&[u8], &[u8])]) -> Vec<(Vec<u8>, Vec<u8>)> {
    list.iter().map(|(k, v)| (k.to_vec(), v.to_vec())).collect()
}

#[test]
fn leaf_insert_in_the_middle() {
    let old = leaf_of(&[(b"a", b"1"), (b"c", b"3"), (b"e", b"5")]);
    let mut new = BNode::scratch();
    new.leaf_insert(&old, 1, b"b".to_vec(), b"two".to_vec());
    assert_eq!(new.btype(), 2);
    assert_eq!(new.nkeys(), 4);
    assert_eq!(
        entries(&new),
        pairs(&[(b"a", b"1"), (b"b", b"two"), (b"c", b"3"), (b"e", b"5")])
    );
    assert_eq!(new.n_bytes(), old.n_bytes() + 14 + 1 + 3);
    // the source is untouched
    assert_eq!(entries(&old), pairs(&[(b"a", b"1"), (b"c", b"3"), (b"e", b"5")]));
}

#[test]
fn leaf_insert_at_both_ends() {
    let old = leaf_of(&[(b"m", b"1"), (b"n", b"2")]);
    let mut first = BNode::scratch();
    first.leaf_insert(&old, 0, b"a".to_vec(), b"0".to_vec());
    assert_eq!(entries(&first), pairs(&[(b"a", b"0"), (b"m", b"1"), (b"n", b"2")]));
    let mut last = BNode::scratch();
    last.leaf_insert(&old, 2, b"z".to_vec(), b"9".to_vec());
    assert_eq!(entries(&last), pairs(&[(b"m", b"1"), (b"n", b"2"), (b"z", b"9")]));
}

#[test]
fn leaf_insert_into_an_empty_leaf() {
    let old = leaf_of(&[]);
    let mut new = BNode::scratch();
    new.leaf_insert(&old, 0, b"only".to_vec(), b"one".to_vec());
    assert_eq!(new.nkeys(), 1);
    assert_eq!(entries(&new), pairs(&[(b"only", b"one")]));
    assert_eq!(new.n_bytes(), 4 + 10 + 4 + 4 + 3);
}

#[test]
fn leaf_insert_sets_no_child_page() {
    let old = leaf_of(&[(b"a", b"1")]);
    let mut new = BNode::scratch();
    new.leaf_insert(&old, 1, b"b".to_vec(), b"2".to_vec());
    assert_eq!(new.get_ptr(0), 0);
    assert_eq!(new.get_ptr(1), 0);
}

#[test]
fn leaf_update_replaces_one_value() {
    let old = leaf_of(&[(b"a", b"1"), (b"b", b"2"), (b"c", b"3")]);
    let mut new = BNode::scratch();
    new.leaf_update(&old, 1, b"b".to_vec(), b"a longer value".to_vec());
    assert_eq!(new.btype(), 2);
    assert_eq!(new.nkeys(), 3);
    assert_eq!(entries(&new), pairs(&[(b"a", b"1"), (b"b", b"a longer value"), (b"c", b"3")]));
    assert_eq!(new.n_bytes(), old.n_bytes() - 1 + 14);
    assert_eq!(entries(&old), pairs(&[(b"a", b"1"), (b"b", b"2"), (b"c", b"3")]));
}

#[test]
fn leaf_update_at_both_ends() {
    let old = leaf_of(&[(b"a", b"1"), (b"b", b"2"), (b"c", b"3")]);
    let mut first = BNode::scratch();
    first.leaf_update(&old, 0, b"a".to_vec(), Vec::new());
    assert_eq!(entries(&first), pairs(&[(b"a", b""), (b"b", b"2"), (b"c", b"3")]));
    let mut last = BNode::scratch();
    last.leaf_update(&old, 2, b"c".to_vec(), b"33".to_vec());
    assert_eq!(entries(&last), pairs(&[(b"a", b"1"), (b"b", b"2"), (b"c", b"33")]));
}

#[test]
fn leaf_update_of_the_only_entry() {
    let old = leaf_of(&[(b"k", b"old")]);
    let mut new = BNode::scratch();
    new.leaf_update(&old, 0, b"k".to_vec(), b"new!".to_vec());
    assert_eq!(new.nkeys(), 1);
    assert_eq!(entries(&new), pairs(&[(b"k", b"new!")]));
}

#[test]
fn the_same_entries_make_the_same_page() {
    let direct = leaf_of(&[(b"a", b"1"), (b"b", b"22"), (b"c", b"333")]);
    let mut step1 = BNode::scratch();
    step1.leaf_insert(&leaf_of(&[]), 0, b"c".to_vec(), b"333".to_vec());
    let mut step2 = BNode::scratch();
    step2.leaf_insert(&step1, 0, b"a".to_vec(), b"x".to_vec());
    let mut step3 = BNode::scratch();
    step3.leaf_insert(&step2, 1, b"b".to_vec(), b"22".to_vec());
    let mut step4 = BNode::scratch();
    step4.leaf_update(&step3, 0, b"a".to_vec(), b"1".to_vec());
    assert_eq!(step4.encode(), direct.encode());
}

#[test]
fn building_leaves_the_rest_of_the_buffer() {
    let old = leaf_of(&[(b"a", b"1"), (b"c", b"3")]);
    let filler = BNode::decode(vec![2u8, 0, 0, 0].into_iter().chain((0..200u8).map(|b| b | 1)).collect()).unwrap();
    let mut new = filler.clone();
    new.leaf_insert(&old, 1, b"b".to_vec(), b"2".to_vec());
    let size = new.n_bytes() as usize;
    assert_eq!(size, 4 + 30 + 18);
    assert_eq!(new.as_bytes().len(), 204);
    assert_eq!(&new.as_bytes()[size..], &filler.as_bytes()[size..]);
    assert_eq!(new.get_key(1), b"b".to_vec());
}

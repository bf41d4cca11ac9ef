use cow_btree::{
    init, BNode, BTreeError, NodeType, BNODE_LEAF, BNODE_NODE, BTREE_MAX_ENTRY_SIZE,
    BTREE_MAX_NODE_SIZE, BTREE_PAGE_SIZE, HEADER,
};

fn leaf_of(pairs: &[(&[u8], &[u8])]) -> BNode {
    let mut node = BNode::scratch();
    node.set_header(BNODE_LEAF, pairs.len() as u16);
    for (i, (k, v)) in pairs.iter().enumerate() {
        node.node_append_kv(i as u16, 0, k.to_vec(), v.to_vec());
    }
    node
}

#[test]
fn constants_are_consistent() {
    assert_eq!(HEADER, 4);
    assert_eq!(BTREE_PAGE_SIZE, 4096);
    assert_eq!(BTREE_MAX_ENTRY_SIZE, 4014);
    assert_eq!(BTREE_MAX_NODE_SIZE, 8110);
    assert_eq!(init(), 4018);
    assert!(init() <= BTREE_PAGE_SIZE);
}

#[test]
fn node_type_tags() {
    assert_eq!(NodeType::from(1), Ok(NodeType::Node));
    assert_eq!(NodeType::from(2), Ok(NodeType::Leaf));
    assert_eq!(NodeType::from(0), Err(BTreeError::DecodeError));
    assert_eq!(NodeType::from(3), Err(BTreeError::DecodeError));
    assert_eq!(NodeType::from(0xffff), Err(BTreeError::DecodeError));
    assert_eq!(NodeType::Node.tag(), 1);
    assert_eq!(NodeType::Leaf.tag(), 2);
}

#[test]
fn fresh_buffers_are_empty_nodes() {
    let page = BNode::page();
    assert_eq!(page.btype(), 0);
    assert_eq!(page.nkeys(), 0);
    assert_eq!(page.n_bytes(), 4);
    let scratch = BNode::scratch();
    assert_eq!(scratch.nkeys(), 0);
    assert_eq!(scratch.kv_pos(0), 4);
}

#[test]
fn header_round_trip() {
    let mut node = BNode::page();
    node.set_header(BNODE_NODE, 0x0203);
    assert_eq!(node.btype(), 1);
    assert_eq!(node.nkeys(), 0x0203);
    node.set_header(BNODE_LEAF, 7);
    assert_eq!(node.btype(), 2);
    assert_eq!(node.nkeys(), 7);
}

#[test]
fn pointers_are_stored_per_index() {
    let mut node = BNode::page();
    node.set_header(BNODE_NODE, 3);
    node.set_ptr(0, 0x0102030405060708);
    node.set_ptr(1, u64::MAX);
    node.set_ptr(2, 42);
    assert_eq!(node.get_ptr(0), 0x0102030405060708);
    assert_eq!(node.get_ptr(1), u64::MAX);
    assert_eq!(node.get_ptr(2), 42);
    node.set_ptr(1, 0);
    assert_eq!(node.get_ptr(0), 0x0102030405060708);
    assert_eq!(node.get_ptr(1), 0);
    assert_eq!(node.get_ptr(2), 42);
}

#[test]
fn offsets_are_stored_from_index_one() {
    let mut node = BNode::page();
    node.set_header(BNODE_LEAF, 3);
    assert_eq!(node.get_offset(0), 0);
    node.set_offset(1, 10);
    node.set_offset(2, 0x1234);
    node.set_offset(3, 0xfffe);
    assert_eq!(node.get_offset(0), 0);
    assert_eq!(node.get_offset(1), 10);
    assert_eq!(node.get_offset(2), 0x1234);
    assert_eq!(node.get_offset(3), 0xfffe);
    assert_eq!(node.kv_pos(0), 4 + 30);
    assert_eq!(node.kv_pos(1), 4 + 30 + 10);
    assert_eq!(node.kv_pos(2), 4 + 30 + 0x1234);
}

#[test]
fn append_kv_then_read_back() {
    let node = leaf_of(&[(b"k1", b"hi"), (b"k2", b"yo!"), (b"", b""), (b"k4", b"")]);
    assert_eq!(node.btype(), 2);
    assert_eq!(node.nkeys(), 4);
    assert_eq!(node.get_key(0), b"k1".to_vec());
    assert_eq!(node.get_val(0), b"hi".to_vec());
    assert_eq!(node.get_key(1), b"k2".to_vec());
    assert_eq!(node.get_val(1), b"yo!".to_vec());
    assert_eq!(node.get_key(2), Vec::<u8>::new());
    assert_eq!(node.get_val(2), Vec::<u8>::new());
    assert_eq!(node.get_key(3), b"k4".to_vec());
    assert_eq!(node.get_val(3), Vec::<u8>::new());
    assert_eq!(node.get_offset(1), 8);
    assert_eq!(node.get_offset(2), 17);
    assert_eq!(node.get_offset(3), 21);
    assert_eq!(node.get_offset(4), 27);
    assert_eq!(node.kv_pos(1), 4 + 40 + 8);
    assert_eq!(node.n_bytes(), 4 + 40 + 27);
}

#[test]
fn append_kv_stores_the_child_page() {
    let mut node = BNode::page();
    node.set_header(BNODE_NODE, 2);
    node.node_append_kv(0, 7, b"a".to_vec(), Vec::new());
    node.node_append_kv(1, 9, b"m".to_vec(), Vec::new());
    assert_eq!(node.get_ptr(0), 7);
    assert_eq!(node.get_ptr(1), 9);
    assert_eq!(node.get_key(0), b"a".to_vec());
    assert_eq!(node.get_key(1), b"m".to_vec());
    assert_eq!(node.get_val(0), Vec::<u8>::new());
    assert_eq!(node.n_bytes(), 4 + 20 + 5 + 5);
}

#[test]
fn page_layout_is_bit_exact() {
    let mut node = BNode::page();
    node.set_header(BNODE_NODE, 2);
    node.node_append_kv(0, 0x0102030405060708, b"k1".to_vec(), b"hi".to_vec());
    node.node_append_kv(1, 0x11, b"k2".to_vec(), b"yo!".to_vec());
    let bytes = node.encode();
    assert_eq!(bytes.len(), 4096);
    let mut expected: Vec<u8> = Vec::new();
    expected.extend_from_slice(&[1, 0]);
    expected.extend_from_slice(&[2, 0]);
    expected.extend_from_slice(&[8, 7, 6, 5, 4, 3, 2, 1]);
    expected.extend_from_slice(&[0x11, 0, 0, 0, 0, 0, 0, 0]);
    expected.extend_from_slice(&[8, 0]);
    expected.extend_from_slice(&[17, 0]);
    expected.extend_from_slice(&[2, 0, 2, 0]);
    expected.extend_from_slice(b"k1hi");
    expected.extend_from_slice(&[2, 0, 3, 0]);
    expected.extend_from_slice(b"k2yo!");
    assert_eq!(expected.len(), 41);
    assert_eq!(node.n_bytes(), 41);
    assert_eq!(&bytes[..41], &expected[..]);
    assert!(bytes[41..].iter().all(|b| *b == 0));
}

#[test]
fn encode_then_decode_round_trip() {
    let node = leaf_of(&[(b"apple", b"1"), (b"banana", b"22"), (b"cherry", b"333")]);
    let page = node.encode();
    assert_eq!(page.len(), BTREE_PAGE_SIZE);
    let back = match BNode::decode(page) {
        Ok(n) => n,
        Err(e) => panic!("decode failed: {:?}", e),
    };
    assert_eq!(back.btype(), node.btype());
    assert_eq!(back.nkeys(), node.nkeys());
    assert_eq!(back.n_bytes(), node.n_bytes());
    for i in 0..node.nkeys() {
        assert_eq!(back.get_key(i), node.get_key(i));
        assert_eq!(back.get_val(i), node.get_val(i));
        assert_eq!(back.get_ptr(i), node.get_ptr(i));
    }
}

#[test]
fn encode_drops_what_lies_behind_the_node() {
    let mut node = leaf_of(&[(b"a", b"1"), (b"b", b"2"), (b"c", b"3")]);
    node.set_header(BNODE_LEAF, 2);
    let again = leaf_of(&[(b"a", b"1"), (b"b", b"2")]);
    let _ = again;
    let mut two = BNode::scratch();
    two.set_header(BNODE_LEAF, 2);
    two.node_append_range(&leaf_of(&[(b"a", b"1"), (b"b", b"2"), (b"c", b"3")]), 0, 0, 2);
    let page = two.encode();
    let back = BNode::decode(page).unwrap();
    assert_eq!(back.nkeys(), 2);
    assert_eq!(back.get_key(1), b"b".to_vec());
    assert_eq!(back.n_bytes(), 4 + 20 + 12);
}

#[test]
fn clone_keeps_the_bytes() {
    let node = leaf_of(&[(b"x", b"y")]);
    let copy = node.clone();
    assert_eq!(copy.encode(), node.encode());
    assert_eq!(copy.get_key(0), b"x".to_vec());
}

#[test]
fn decode_rejects_an_unknown_tag() {
    let mut bytes = vec![0u8; 4096];
    assert_eq!(BNode::decode(bytes.clone()).err(), Some(BTreeError::DecodeError));
    bytes[0] = 3;
    assert_eq!(BNode::decode(bytes.clone()).err(), Some(BTreeError::DecodeError));
    bytes[0] = 2;
    bytes[1] = 1;
    assert_eq!(BNode::decode(bytes.clone()).err(), Some(BTreeError::DecodeError));
    bytes[1] = 0;
    assert!(BNode::decode(bytes).is_ok());
}

#[test]
fn decode_rejects_a_buffer_of_the_wrong_length() {
    assert_eq!(BNode::decode(vec![2, 0, 0]).err(), Some(BTreeError::DecodeError));
    assert_eq!(BNode::decode(Vec::new()).err(), Some(BTreeError::DecodeError));
    let mut long = vec![0u8; 0x10000];
    long[0] = 2;
    assert_eq!(BNode::decode(long).err(), Some(BTreeError::DecodeError));
    assert!(BNode::decode(vec![2, 0, 0, 0]).is_ok());
    assert!(BNode::decode(vec![1, 0, 0, 0]).is_ok());
}

#[test]
fn decode_rejects_entries_outside_the_buffer() {
    // the header counts more keys than the buffer has room for
    let mut bytes = vec![0u8; 64];
    bytes[0] = 2;
    bytes[2] = 7;
    assert_eq!(BNode::decode(bytes).err(), Some(BTreeError::BoundsViolation));
    // an offset that does not match the lengths of the record
    let good = leaf_of(&[(b"k1", b"hi"), (b"k2", b"yo!")]).encode();
    assert!(BNode::decode(good.clone()).is_ok());
    let mut bad = good.clone();
    bad[4 + 16] = 9;
    assert_eq!(BNode::decode(bad).err(), Some(BTreeError::BoundsViolation));
    // a record that runs over the end of the buffer
    let mut short = good.clone();
    short.truncate(40);
    assert_eq!(BNode::decode(short).err(), Some(BTreeError::BoundsViolation));
    let mut exact = good;
    exact.truncate(41);
    assert!(BNode::decode(exact).is_ok());
}

#[test]
fn lookup_finds_the_greatest_key_at_most_the_query() {
    let node = leaf_of(&[(b"b", b""), (b"d", b""), (b"f", b""), (b"h", b"")]);
    assert_eq!(node.node_lookup_le(&b"a".to_vec()), 0);
    assert_eq!(node.node_lookup_le(&b"b".to_vec()), 0);
    assert_eq!(node.node_lookup_le(&b"c".to_vec()), 0);
    assert_eq!(node.node_lookup_le(&b"d".to_vec()), 1);
    assert_eq!(node.node_lookup_le(&b"e".to_vec()), 1);
    assert_eq!(node.node_lookup_le(&b"f".to_vec()), 2);
    assert_eq!(node.node_lookup_le(&b"g".to_vec()), 2);
    assert_eq!(node.node_lookup_le(&b"h".to_vec()), 3);
    assert_eq!(node.node_lookup_le(&b"zzz".to_vec()), 3);
    assert_eq!(node.node_lookup_le(&Vec::new()), 0);
}

#[test]
fn lookup_in_small_nodes() {
    let empty = leaf_of(&[]);
    assert_eq!(empty.node_lookup_le(&b"a".to_vec()), 0);
    let one = leaf_of(&[(b"m", b"")]);
    assert_eq!(one.node_lookup_le(&b"a".to_vec()), 0);
    assert_eq!(one.node_lookup_le(&b"z".to_vec()), 0);
}

#[test]
fn lookup_orders_keys_by_bytes() {
    let node = leaf_of(&[(b"", b""), (b"a", b""), (b"a\x00", b""), (b"ab", b""), (b"b", b"")]);
    assert_eq!(node.node_lookup_le(&b"a".to_vec()), 1);
    assert_eq!(node.node_lookup_le(&b"a\x00".to_vec()), 2);
    assert_eq!(node.node_lookup_le(&b"a\x01".to_vec()), 2);
    assert_eq!(node.node_lookup_le(&b"ab".to_vec()), 3);
    assert_eq!(node.node_lookup_le(&b"aa".to_vec()), 2);
    assert_eq!(node.node_lookup_le(&[0xffu8].to_vec()), 4);
}

#[test]
fn append_range_copies_entries_and_moves_offsets() {
    let src = leaf_of(&[(b"a", b"1"), (b"bb", b"22"), (b"ccc", b"333"), (b"d", b"4")]);
    let mut dst = BNode::scratch();
    dst.set_header(BNODE_LEAF, 3);
    dst.node_append_kv(0, 5, b"0".to_vec(), b"zero".to_vec());
    dst.node_append_range(&src, 1, 1, 2);
    assert_eq!(dst.nkeys(), 3);
    assert_eq!(dst.get_key(0), b"0".to_vec());
    assert_eq!(dst.get_val(0), b"zero".to_vec());
    assert_eq!(dst.get_ptr(0), 5);
    assert_eq!(dst.get_key(1), b"bb".to_vec());
    assert_eq!(dst.get_val(1), b"22".to_vec());
    assert_eq!(dst.get_key(2), b"ccc".to_vec());
    assert_eq!(dst.get_val(2), b"333".to_vec());
    assert_eq!(dst.get_offset(1), 9);
    assert_eq!(dst.get_offset(2), 9 + 8);
    assert_eq!(dst.get_offset(3), 9 + 8 + 10);
    assert_eq!(dst.n_bytes(), 4 + 30 + 27);
}

#[test]
fn append_range_of_nothing_changes_nothing() {
    let src = leaf_of(&[(b"a", b"1")]);
    let mut dst = BNode::scratch();
    dst.set_header(BNODE_LEAF, 1);
    dst.node_append_range(&src, 0, 0, 0);
    dst.node_append_range(&src, 0, 1, 0);
    dst.node_append_range(&src, 0, 0, 1);
    assert_eq!(dst.get_key(0), b"a".to_vec());
    assert_eq!(dst.n_bytes(), src.n_bytes());
}

#[test]
fn append_range_copies_child_pages() {
    let mut src = BNode::page();
    src.set_header(BNODE_NODE, 3);
    src.node_append_kv(0, 11, b"a".to_vec(), Vec::new());
    src.node_append_kv(1, 22, b"b".to_vec(), Vec::new());
    src.node_append_kv(2, 33, b"c".to_vec(), Vec::new());
    let mut dst = BNode::page();
    dst.set_header(BNODE_NODE, 2);
    dst.node_append_range(&src, 0, 1, 2);
    assert_eq!(dst.get_ptr(0), 22);
    assert_eq!(dst.get_ptr(1), 33);
    assert_eq!(dst.get_key(0), b"b".to_vec());
    assert_eq!(dst.get_key(1), b"c".to_vec());
}

#[test]
fn entry_checks_the_index() {
    let mut node = BNode::page();
    node.set_header(BNODE_NODE, 2);
    node.node_append_kv(0, 5, b"a".to_vec(), Vec::new());
    node.node_append_kv(1, 6, b"b".to_vec(), b"v".to_vec());
    assert_eq!(node.entry(0), Ok((5, b"a".to_vec(), Vec::new())));
    assert_eq!(node.entry(1), Ok((6, b"b".to_vec(), b"v".to_vec())));
    assert_eq!(node.entry(2), Err(BTreeError::BoundsViolation));
    assert_eq!(node.entry(0xffff), Err(BTreeError::BoundsViolation));
    assert_eq!(BNode::page().entry(0), Err(BTreeError::BoundsViolation));
}

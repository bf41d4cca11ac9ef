use cow_btree::{BNode, BNODE_LEAF, BNODE_NODE, BTREE_PAGE_SIZE};

fn node_of(kind: u16, list: &[(u64, Vec<u8>, Vec<u8>)]) -> BNode {
    let mut node = BNode::scratch();
    node.set_header(kind, list.len() as u16);
    for (i, (p, k, v)) in list.iter().enumerate() {
        node.node_append_kv(i as u16, *p, k.clone(), v.clone());
    }
    node
}

fn entries(node: &BNode) -> Vec<(u64, Vec<u8>, Vec<u8>)> {
    (0..node.nkeys()).map(|i| (node.get_ptr(i), node.get_key(i), node.get_val(i))).collect()
}

fn joined(nodes: &[BNode]) -> Vec<(u64, Vec<u8>, Vec<u8>)> {
    let mut all = Vec::new();
    for n in nodes {
        all.extend(entries(n));
    }
    all
}

fn numbered(count: usize, val_len: usize) -> Vec<(u64, Vec<u8>, Vec<u8>)> {
    (0..count)
        .map(|i| (0u64, format!("key{:05}", i).into_bytes(), vec![(i % 251) as u8; val_len]))
        .collect()
}

#[test]
fn split_point_of_a_node_that_fits() {
    let node = node_of(BNODE_LEAF, &numbered(10, 20));
    assert_eq!(node.split_point(), 10);
    assert_eq!(node_of(BNODE_LEAF, &[]).split_point(), 0);
}

#[test]
fn split_point_takes_the_longest_prefix() {
    // each entry takes 10 + 4 + 8 + 88 = 110 bytes: 37 of them are 4074 bytes
    // with the header, 38 are 4184
    let node = node_of(BNODE_LEAF, &numbered(60, 88));
    assert_eq!(node.n_bytes(), 4 + 60 * 110);
    assert_eq!(node.split_point(), 37);
    // 4 + 40 * 102 + 12 = 4096 fits exactly
    let mut list = numbered(41, 80);
    list[40].2 = vec![7; 0];
    list[39].2 = vec![7; 92];
    let exact = node_of(BNODE_LEAF, &list);
    assert_eq!(4 + 39 * 102 + 114, 4096);
    assert_eq!(exact.split_point(), 40);
    list[39].2 = vec![7; 93];
    let over = node_of(BNODE_LEAF, &list);
    assert_eq!(over.split_point(), 39);
}

#[test]
fn split_2_cuts_at_the_split_point() {
    let list = numbered(60, 88);
    let node = node_of(BNODE_LEAF, &list);
    let mut left = BNode::page();
    let mut right = BNode::page();
    node.node_split_2(&mut left, &mut right);
    assert_eq!(left.nkeys(), 37);
    assert_eq!(right.nkeys(), 23);
    assert_eq!(left.btype(), 2);
    assert_eq!(right.btype(), 2);
    assert_eq!(left.n_bytes(), 4 + 37 * 110);
    assert_eq!(right.n_bytes(), 4 + 23 * 110);
    assert_eq!(entries(&left), list[..37].to_vec());
    assert_eq!(entries(&right), list[37..].to_vec());
    assert_eq!(entries(&node), list);
}

#[test]
fn split_3_returns_one_node_when_it_fits() {
    let list = numbered(30, 50);
    let mut node = node_of(BNODE_LEAF, &list);
    let size = node.n_bytes();
    assert!(size as usize <= BTREE_PAGE_SIZE);
    let (count, nodes) = node.node_split_3();
    assert_eq!(count, 1);
    assert_eq!(nodes.len(), 1);
    assert_eq!(entries(&nodes[0]), list);
    assert_eq!(nodes[0].n_bytes(), size);
    assert_eq!(nodes[0].btype(), 2);
    assert_eq!(nodes[0].encode().len(), 4096);
    assert_eq!(entries(&node), list);
}

#[test]
fn split_3_of_an_empty_node() {
    let mut node = node_of(BNODE_LEAF, &[]);
    let (count, nodes) = node.node_split_3();
    assert_eq!(count, 1);
    assert_eq!(nodes[0].nkeys(), 0);
    assert_eq!(nodes[0].btype(), 2);
}

#[test]
fn split_3_at_the_size_of_a_page() {
    let mut list = numbered(41, 80);
    list[40].2 = Vec::new();
    list[39].2 = vec![7; 92];
    list[40].1 = b"key00040".to_vec();
    // 40 entries fill the page; drop the last to have exactly one page
    let mut fits = node_of(BNODE_LEAF, &list[..40]);
    assert_eq!(fits.n_bytes(), 4096);
    let (count, nodes) = fits.node_split_3();
    assert_eq!(count, 1);
    assert_eq!(nodes[0].n_bytes(), 4096);
    let mut over = node_of(BNODE_LEAF, &list);
    assert_eq!(over.n_bytes() as usize, 4096 + 10 + 4 + 8);
    let (count, nodes) = over.node_split_3();
    assert_eq!(count, 2);
    assert_eq!(nodes[0].nkeys(), 40);
    assert_eq!(nodes[1].nkeys(), 1);
}

#[test]
fn split_3_returns_two_nodes() {
    let list = numbered(60, 88);
    let mut node = node_of(BNODE_LEAF, &list);
    let (count, nodes) = node.node_split_3();
    assert_eq!(count, 2);
    assert_eq!(nodes.len(), 2);
    assert_eq!(nodes[0].nkeys(), 37);
    assert_eq!(nodes[1].nkeys(), 23);
    assert_eq!(joined(&nodes), list);
    for n in nodes.iter() {
        assert!(n.n_bytes() as usize <= BTREE_PAGE_SIZE);
        assert_eq!(n.btype(), 2);
    }
}

#[test]
fn split_3_returns_three_nodes_around_a_large_entry() {
    let list = vec![
        (0u64, b"a".to_vec(), vec![1u8; 100]),
        (0u64, vec![b'b'; 1000], vec![2u8; 3000]),
        (0u64, vec![b'c'; 900], vec![3u8; 3000]),
    ];
    let mut node = node_of(BNODE_LEAF, &list);
    assert_eq!(node.n_bytes(), 4 + 30 + 105 + 4004 + 3904);
    let (count, nodes) = node.node_split_3();
    assert_eq!(count, 3);
    assert_eq!(nodes.len(), 3);
    assert_eq!(nodes[0].nkeys(), 1);
    assert_eq!(nodes[1].nkeys(), 1);
    assert_eq!(nodes[2].nkeys(), 1);
    assert_eq!(nodes[0].n_bytes(), 4 + 10 + 105);
    assert_eq!(nodes[1].n_bytes(), 4 + 10 + 4004);
    assert_eq!(nodes[2].n_bytes(), 4 + 10 + 3904);
    assert_eq!(joined(&nodes), list);
}

#[test]
fn split_3_fills_each_node_but_the_last() {
    // small entries, then one of the greatest size, then small ones again
    let mut list = numbered(30, 100);
    list.insert(15, (0u64, b"key00014x".to_vec(), vec![9u8; 3000]));
    list.truncate(40);
    let mut node = node_of(BNODE_LEAF, &list);
    let (count, nodes) = node.node_split_3();
    assert!(count >= 2);
    assert_eq!(count as usize, nodes.len());
    assert_eq!(joined(&nodes), list);
    for i in 0..nodes.len() {
        assert!(nodes[i].nkeys() >= 1);
        assert!(nodes[i].n_bytes() as usize <= BTREE_PAGE_SIZE);
        if i + 1 < nodes.len() {
            let next = 14 + nodes[i + 1].get_key(0).len() + nodes[i + 1].get_val(0).len();
            assert!(nodes[i].n_bytes() as usize + next > BTREE_PAGE_SIZE);
        }
    }
}

#[test]
fn split_3_keeps_kind_and_child_pages_of_an_internal_node() {
    let list: Vec<(u64, Vec<u8>, Vec<u8>)> = (0..8)
        .map(|i| (100 + i as u64, vec![b'a' + i as u8; 1000], Vec::new()))
        .collect();
    let mut node = node_of(BNODE_NODE, &list);
    assert_eq!(node.n_bytes() as usize, 4 + 8 * 1014);
    let (count, nodes) = node.node_split_3();
    assert_eq!(count, 2);
    assert_eq!(nodes[0].nkeys(), 4);
    assert_eq!(nodes[1].nkeys(), 4);
    assert_eq!(nodes[0].btype(), 1);
    assert_eq!(nodes[1].btype(), 1);
    assert_eq!(nodes[1].get_ptr(0), 104);
    assert_eq!(joined(&nodes), list);
}

#[test]
fn split_3_returns_pages_with_zeros_behind_the_node() {
    let list = numbered(60, 88);
    let mut node = node_of(BNODE_LEAF, &list);
    let (_, nodes) = node.node_split_3();
    for n in nodes.iter() {
        let bytes = n.as_bytes();
        assert_eq!(bytes.len(), BTREE_PAGE_SIZE);
        assert!(bytes[n.n_bytes() as usize..].iter().all(|b| *b == 0));
        assert_eq!(&n.encode(), bytes);
    }
}

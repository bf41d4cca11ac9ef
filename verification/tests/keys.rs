use cow_btree::{key_order, KeyOrder};

fn order(a: &[u8], b: &[u8]) -> KeyOrder {
    key_order(&a.to_vec(), &b.to_vec())
}

#[test]
fn key_order_is_lexicographic() {
    assert_eq!(order(b"", b""), KeyOrder::Equal);
    assert_eq!(order(b"", b"a"), KeyOrder::Less);
    assert_eq!(order(b"a", b""), KeyOrder::Greater);
    assert_eq!(order(b"abc", b"abc"), KeyOrder::Equal);
    assert_eq!(order(b"abc", b"abd"), KeyOrder::Less);
    assert_eq!(order(b"abd", b"abc"), KeyOrder::Greater);
    assert_eq!(order(b"ab", b"abc"), KeyOrder::Less);
    assert_eq!(order(b"abc", b"ab"), KeyOrder::Greater);
    assert_eq!(order(b"b", b"abc"), KeyOrder::Greater);
    assert_eq!(order(&[0x7f], &[0x80]), KeyOrder::Less);
    assert_eq!(order(&[0xff], &[0x00, 0xff]), KeyOrder::Greater);
}

#[test]
fn key_order_agrees_with_the_order_of_slices() {
    let keys: Vec<Vec<u8>> = vec![
        vec![],
        vec![0],
        vec![0, 0],
        vec![0, 1],
        vec![1],
        vec![1, 0],
        vec![200],
        vec![200, 1, 2],
        vec![255],
    ];
    for a in keys.iter() {
        for b in keys.iter() {
            let expected = if a < b {
                KeyOrder::Less
            } else if a == b {
                KeyOrder::Equal
            } else {
                KeyOrder::Greater
            };
            assert_eq!(key_order(a, b), expected);
        }
    }
}

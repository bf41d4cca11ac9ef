use cow_btree::wire::{get_u16, get_u64, put_bytes, put_record, put_u16, put_u64, take_bytes};

#[test]
fn u16_is_little_endian() {
    let mut buf = vec![0xaau8; 6];
    put_u16(&mut buf, 2, 0x1234);
    assert_eq!(buf, vec![0xaa, 0xaa, 0x34, 0x12, 0xaa, 0xaa]);
    assert_eq!(get_u16(&buf, 2), 0x1234);
    assert_eq!(get_u16(&buf, 3), 0xaa12);
    put_u16(&mut buf, 4, 0xffff);
    assert_eq!(get_u16(&buf, 4), 0xffff);
    put_u16(&mut buf, 0, 0);
    assert_eq!(get_u16(&buf, 0), 0);
    assert_eq!(get_u16(&buf, 2), 0x1234);
}

#[test]
fn u64_is_little_endian() {
    let mut buf = vec![0x55u8; 12];
    put_u64(&mut buf, 3, 0x0102030405060708);
    assert_eq!(buf, vec![0x55, 0x55, 0x55, 8, 7, 6, 5, 4, 3, 2, 1, 0x55]);
    assert_eq!(get_u64(&buf, 3), 0x0102030405060708);
    put_u64(&mut buf, 0, u64::MAX);
    assert_eq!(get_u64(&buf, 0), u64::MAX);
    put_u64(&mut buf, 4, 0);
    assert_eq!(get_u64(&buf, 4), 0);
    assert_eq!(get_u64(&buf, 0), 0x0000_0000_ffff_ffff);
    for v in [1u64, 0xff, 0x100, 0xdead_beef, 1 << 63, (1 << 56) - 1] {
        put_u64(&mut buf, 2, v);
        assert_eq!(get_u64(&buf, 2), v);
        assert_eq!(&buf[2..10], &v.to_le_bytes());
    }
}

#[test]
fn put_bytes_copies_a_run() {
    let mut buf = vec![0u8; 8];
    let src = vec![1u8, 2, 3, 4, 5];
    put_bytes(&mut buf, 2, &src, 1, 3);
    assert_eq!(buf, vec![0, 0, 2, 3, 4, 0, 0, 0]);
    put_bytes(&mut buf, 0, &src, 0, 0);
    assert_eq!(buf, vec![0, 0, 2, 3, 4, 0, 0, 0]);
    put_bytes(&mut buf, 3, &src, 0, 5);
    assert_eq!(buf, vec![0, 0, 2, 1, 2, 3, 4, 5]);
}

#[test]
fn take_bytes_copies_a_run() {
    let src = vec![9u8, 8, 7, 6];
    assert_eq!(take_bytes(&src, 1, 2), vec![8, 7]);
    assert_eq!(take_bytes(&src, 0, 4), src);
    assert_eq!(take_bytes(&src, 4, 0), Vec::<u8>::new());
}

#[test]
fn put_record_writes_lengths_key_and_value() {
    let mut buf = vec![0xeeu8; 16];
    put_record(&mut buf, 3, &b"key".to_vec(), &b"va".to_vec());
    assert_eq!(
        buf,
        vec![0xee, 0xee, 0xee, 3, 0, 2, 0, b'k', b'e', b'y', b'v', b'a', 0xee, 0xee, 0xee, 0xee]
    );
    put_record(&mut buf, 0, &Vec::new(), &Vec::new());
    assert_eq!(&buf[..4], &[0, 0, 0, 0]);
    assert_eq!(buf[4], 0);
}

use guest_abi::frame::{check, extent, payload, prefix_bytes, prefix_value, wrap, MAX_PAYLOAD_LEN, PREFIX_LEN};

#[test]
fn prefix_is_big_endian() {
    assert_eq!(prefix_bytes(0), [0, 0, 0, 0]);
    assert_eq!(prefix_bytes(3), [0, 0, 0, 3]);
    assert_eq!(prefix_bytes(0x0102_0304), [1, 2, 3, 4]);
    assert_eq!(prefix_bytes(u32::MAX), [255, 255, 255, 255]);
    assert_eq!(prefix_bytes(256), [0, 0, 1, 0]);
}

#[test]
fn prefix_agrees_with_std() {
    for n in [0u32, 1, 255, 256, 65_535, 65_536, 16_777_215, 16_777_216, 0xDEAD_BEEF, u32::MAX] {
        assert_eq!(prefix_bytes(n), n.to_be_bytes());
        assert_eq!(prefix_value(&n.to_be_bytes()), Some(n));
    }
}

#[test]
fn prefix_value_reads_first_four_bytes() {
    assert_eq!(prefix_value(&[0, 0, 0, 3, 9, 9, 9]), Some(3));
    assert_eq!(prefix_value(&[1, 2, 3, 4]), Some(0x0102_0304));
    assert_eq!(prefix_value(&[0, 0, 1]), None);
    assert_eq!(prefix_value(&[]), None);
}

#[test]
fn extent_adds_the_prefix() {
    assert_eq!(extent(&[0, 0, 0, 0]), Some(4));
    assert_eq!(extent(&[0, 0, 0, 3]), Some(7));
    assert_eq!(extent(&[0, 0, 1, 0, 7, 7]), Some(260));
    assert_eq!(extent(&[0, 0, 0]), None);
}

#[test]
fn wrap_prepends_the_length() {
    assert_eq!(wrap(&[1, 2, 3]), Some(vec![0, 0, 0, 3, 1, 2, 3]));
    assert_eq!(wrap(&[]), Some(vec![0, 0, 0, 0]));
    assert_eq!(PREFIX_LEN, 4);
    assert_eq!(MAX_PAYLOAD_LEN as u64, u32::MAX as u64);
}

#[test]
fn framing_is_exact_for_many_lengths() {
    for len in [0usize, 1, 2, 3, 4, 5, 255, 256, 257, 1020, 1021, 65_535, 65_536, 70_000] {
        let body: Vec<u8> = (0..len).map(|i| (i % 251) as u8).collect();
        let buffer = wrap(&body).unwrap();
        assert_eq!(buffer.len(), len + 4);
        let first = [buffer[0], buffer[1], buffer[2], buffer[3]];
        assert_eq!(u32::from_be_bytes(first) as usize, len);
        assert_eq!(&buffer[4..], &body[..]);
        assert!(check(&buffer));
        assert_eq!(payload(&buffer), Some(&body[..]));
    }
}

#[test]
fn check_wants_the_exact_length() {
    assert!(check(&[0, 0, 0, 0]));
    assert!(check(&[0, 0, 0, 2, 8, 9]));
    assert!(!check(&[0, 0, 0, 2, 8]));
    assert!(!check(&[0, 0, 0, 2, 8, 9, 10]));
    assert!(!check(&[0, 0, 0]));
    assert!(!check(&[]));
    assert!(!check(&[1, 0, 0, 0]));
}

#[test]
fn payload_strips_the_prefix() {
    assert_eq!(payload(&[0, 0, 0, 2, 8, 9]), Some(&[8u8, 9][..]));
    assert_eq!(payload(&[0, 0, 0, 0]), Some(&[][..]));
    assert_eq!(payload(&[0, 0, 0, 2, 8]), None);
    assert_eq!(payload(&[0, 0]), None);
}

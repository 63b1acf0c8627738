use roomstate::bytes::{u32_from_be_bytes, u32_to_be_bytes, u64_from_be_bytes, u64_to_be_bytes};
use roomstate::state_compressor::{compress_state_event, parse_compressed_state_event};
use roomstate::state_set::StateSet;

#[test]
fn u64_bytes_are_big_endian() {
    assert_eq!(u64_to_be_bytes(0x0102_0304_0506_0708), [1, 2, 3, 4, 5, 6, 7, 8]);
    assert_eq!(u64_to_be_bytes(0), [0; 8]);
    assert_eq!(u64_to_be_bytes(u64::MAX), [0xff; 8]);
    assert_eq!(u64_from_be_bytes(&[1, 2, 3, 4, 5, 6, 7, 8]), Some(0x0102_0304_0506_0708));
    assert_eq!(u64_from_be_bytes(&[1, 2, 3]), None);
    assert_eq!(u64_from_be_bytes(&[0; 9]), None);
}

#[test]
fn u32_bytes_are_big_endian() {
    assert_eq!(u32_to_be_bytes(0x0a0b_0c0d), [0x0a, 0x0b, 0x0c, 0x0d]);
    assert_eq!(u32_from_be_bytes(&[0x0a, 0x0b, 0x0c, 0x0d]), Some(0x0a0b_0c0d));
    assert_eq!(u32_from_be_bytes(&[0; 8]), None);
}

#[test]
fn compress_is_big_endian_concatenation() {
    let blob = compress_state_event(1, 0x0102_0304_0506_0708);
    assert_eq!(blob, [0, 0, 0, 0, 0, 0, 0, 1, 1, 2, 3, 4, 5, 6, 7, 8]);
}

#[test]
fn parse_undoes_compress() {
    for (a, b) in [(0u64, 0u64), (1, 2), (u64::MAX, 42), (7, u64::MAX), (1 << 40, 1 << 63)] {
        let blob = compress_state_event(a, b);
        assert_eq!(parse_compressed_state_event(&blob).unwrap(), (a, b));
    }
}

#[test]
fn parse_refuses_other_lengths() {
    assert!(parse_compressed_state_event(&[0u8; 15]).is_err());
    assert!(parse_compressed_state_event(&[0u8; 17]).is_err());
    assert!(parse_compressed_state_event(&[]).is_err());
    let e = parse_compressed_state_event(&[0u8; 3]).unwrap_err();
    assert_eq!(e.kind(), roomstate::error::ErrorKind::BadDatabase);
}

#[test]
fn state_set_keeps_byte_order() {
    let mut set = StateSet::new();
    assert!(set.insert(compress_state_event(2, 1)));
    assert!(set.insert(compress_state_event(1, 9)));
    assert!(!set.insert(compress_state_event(2, 1)));
    assert_eq!(set.len(), 2);
    assert_eq!(set.to_vec(), vec![compress_state_event(1, 9), compress_state_event(2, 1)]);
}

#[test]
fn state_set_finds_by_short_state_key() {
    let mut set = StateSet::new();
    set.insert(compress_state_event(2, 8));
    set.insert(compress_state_event(2, 3));
    set.insert(compress_state_event(1, 9));
    assert_eq!(set.find_by_shortstatekey(1), Some(compress_state_event(1, 9)));
    assert_eq!(set.find_by_shortstatekey(2), Some(compress_state_event(2, 3)));
    assert_eq!(set.find_by_shortstatekey(3), None);
    assert_eq!(StateSet::new().find_by_shortstatekey(0), None);
}

#[test]
fn state_set_difference_union_remove() {
    let a = StateSet::from_slice(&[compress_state_event(1, 1), compress_state_event(2, 2), compress_state_event(3, 3)]);
    let b = StateSet::from_slice(&[compress_state_event(2, 2), compress_state_event(4, 4)]);
    assert_eq!(a.difference(&b).to_vec(), vec![compress_state_event(1, 1), compress_state_event(3, 3)]);
    assert_eq!(b.difference(&a).to_vec(), vec![compress_state_event(4, 4)]);
    let mut u = a.clone();
    u.extend(&b);
    assert_eq!(u.len(), 4);
    assert!(u.contains(&compress_state_event(4, 4)));
    let mut r = a.clone();
    assert!(r.remove(&compress_state_event(1, 1)));
    assert!(!r.remove(&compress_state_event(1, 1)));
    assert!(!r.contains(&compress_state_event(1, 1)));
    assert!(!r.is_empty());
    assert!(StateSet::new().is_empty());
    assert_eq!(a.len(), 3);
}

#[test]
fn from_slice_drops_repeats() {
    let s = StateSet::from_slice(&[compress_state_event(5, 5), compress_state_event(5, 5)]);
    assert_eq!(s.to_vec(), vec![compress_state_event(5, 5)]);
}

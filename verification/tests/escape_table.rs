use sensirion_hdlc::{forward_lookup, reverse_lookup};

#[test]
fn forward_lookup_maps_reserved_bytes() {
    assert_eq!(forward_lookup(0x7d), Some(0x5d));
    assert_eq!(forward_lookup(0x7e), Some(0x5e));
    assert_eq!(forward_lookup(0x11), Some(0x31));
    assert_eq!(forward_lookup(0x13), Some(0x33));
    assert_eq!(forward_lookup(0x00), None);
    assert_eq!(forward_lookup(0x5d), None);
}

#[test]
fn reverse_lookup_maps_substitutes_back() {
    assert_eq!(reverse_lookup(0x5d), Some(0x7d));
    assert_eq!(reverse_lookup(0x5e), Some(0x7e));
    assert_eq!(reverse_lookup(0x31), Some(0x11));
    assert_eq!(reverse_lookup(0x33), Some(0x13));
    assert_eq!(reverse_lookup(0x7d), None);
    assert_eq!(reverse_lookup(0xff), None);
}

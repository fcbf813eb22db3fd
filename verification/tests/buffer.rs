use sensirion_hdlc::BoundedBuffer;

#[test]
fn buffer_appends_until_capacity() {
    let mut buf = BoundedBuffer::new(2);
    assert_eq!(buf.capacity(), 2);
    assert_eq!(buf.len(), 0);
    assert_eq!(buf.push(0xaa), Ok(()));
    assert_eq!(buf.push(0xbb), Ok(()));
    assert_eq!(buf.len(), 2);
    assert_eq!(buf.push(0xcc), Err(()));
    assert_eq!(buf.len(), 2);
    assert_eq!(buf.into_vec(), vec![0xaa, 0xbb]);
}

#[test]
fn zero_capacity_buffer_rejects_everything() {
    let mut buf = BoundedBuffer::new(0);
    assert_eq!(buf.push(0x01), Err(()));
    assert_eq!(buf.into_vec(), Vec::<u8>::new());
}

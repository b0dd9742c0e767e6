use x_aho_corasick::ring_buffer::RingBuffer;

#[test]
fn test_ring_buffer1() {
    let mut buf = RingBuffer::new();
    buf.push_back("string1".to_owned());
    buf.push_back("string2".to_owned());

    assert_eq!(buf.len(), 2);

    let s1 = buf.pop_front();
    assert_eq!(s1, Some("string1".to_owned()));

    let s2 = buf.pop_front();
    assert_eq!(s2, Some("string2".to_owned()));

    let s3 = buf.pop_front();
    assert_eq!(s3, None);
    assert_eq!(buf.len(), 0);
}

#[test]
fn test_ring_buffer2() {
    let mut buf = RingBuffer::new();
    buf.push_back("a".to_string());
    buf.push_back("b".to_string());
    assert_eq!(buf.len(), 2);

    for i in 0..40 {
        buf.push_back(i.to_string());
    }
    assert_eq!(buf.len(), 32);

    let first = buf.pop_front().unwrap();
    assert_eq!(first, "8");
}

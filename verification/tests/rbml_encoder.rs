use rustc_utils::rbml::{Encoder, RbmlError};

#[test]
fn a_small_tag_gets_a_short_size() {
    let mut e = Encoder::new(Vec::new(), 0);
    assert_eq!(e.start_tag(0x12), Ok(()));
    assert_eq!(e.position(), 5);
    assert_eq!(e.wr_bytes(&[1, 2, 3]), Ok(()));
    assert_eq!(e.end_tag(), Ok(()));
    assert_eq!(e.position(), 5);
    let (data, pos) = e.into_inner();
    assert_eq!(pos, 5);
    // The contents moved up behind the one-byte size; the old tail stays.
    assert_eq!(data, vec![0x12, 0x83, 1, 2, 3, 1, 2, 3]);
}

#[test]
fn nested_tags() {
    let mut e = Encoder::new(Vec::new(), 0);
    e.start_tag(1).unwrap();
    e.start_tag(2).unwrap();
    e.wr_bytes(&[9]).unwrap();
    e.end_tag().unwrap();
    e.end_tag().unwrap();
    let (data, pos) = e.into_inner();
    assert_eq!(pos, 5);
    assert_eq!(&data[..pos], &[1, 0x83, 2, 0x81, 9]);
}

#[test]
fn a_large_tag_keeps_a_four_byte_size() {
    let mut e = Encoder::new(Vec::new(), 0);
    e.start_tag(3).unwrap();
    let contents = vec![7u8; 300];
    e.wr_bytes(&contents).unwrap();
    e.end_tag().unwrap();
    assert_eq!(e.position(), 305);
    let (data, _) = e.into_inner();
    assert_eq!(&data[..5], &[3, 0x10, 0x00, 0x01, 0x2c]);
    assert_eq!(&data[5..], &contents[..]);
}

#[test]
fn stable_positions_are_not_moved() {
    let mut e = Encoder::new(vec![0; 16], 16);
    e.start_tag(0x20).unwrap();
    assert_eq!(e.mark_stable_position(), 5);
    e.wr_bytes(&[4, 5]).unwrap();
    e.end_tag().unwrap();
    assert_eq!(e.position(), 23);
    let (data, _) = e.into_inner();
    assert_eq!(&data[16..], &[0x20, 0x10, 0, 0, 2, 4, 5]);
}

#[test]
fn marking_keeps_the_furthest_position() {
    let mut e = Encoder::new(vec![0; 20], 20);
    assert_eq!(e.mark_stable_position(), 4);
    let mut f = Encoder::new(vec![0; 20], 16);
    assert_eq!(f.mark_stable_position(), 0);
    e.start_tag(1).unwrap();
    e.end_tag().unwrap();
    // The size field at 21 lies after the stable limit: it is relaxed.
    let (data, pos) = e.into_inner();
    assert_eq!(pos, 22);
    assert_eq!(&data[20..22], &[1, 0x80]);
}

#[test]
fn tagged_values() {
    let mut e = Encoder::new(Vec::new(), 0);
    e.wr_tagged_u64(0x10, 0x1234).unwrap();
    e.wr_tagged_u64(5, 0).unwrap();
    e.wr_tagged_u32(5, 1).unwrap();
    e.wr_tagged_u8(5, 0).unwrap();
    e.wr_tagged_str(7, "hi").unwrap();
    e.wr_tagged_u64(0x123, u64::MAX).unwrap();
    e.wr_str("ok").unwrap();
    let (data, pos) = e.into_inner();
    assert_eq!(pos, data.len());
    let mut expected = vec![0x10, 0x82, 0x12, 0x34, 5, 0x80, 5, 0x81, 1, 5, 0x81, 0, 7, 0x82, b'h', b'i'];
    expected.extend_from_slice(&[0xf1, 0x23, 0x88, 0xff, 0xff, 0xff, 0xff, 0xff, 0xff, 0xff, 0xff]);
    expected.extend_from_slice(b"ok");
    assert_eq!(data, expected);
}

#[test]
fn refused_tags_write_nothing() {
    let mut e = Encoder::new(vec![1, 2], 1);
    assert_eq!(e.wr_tagged_bytes(0xf5, &[1]), Err(RbmlError::InvalidTag(0xf5)));
    assert_eq!(e.start_tag(0x1000), Err(RbmlError::InvalidTag(0x1000)));
    assert_eq!(e.position(), 1);
    assert_eq!(e.into_inner().0, vec![1, 2]);
}

#[test]
fn writes_go_over_what_is_there() {
    let mut e = Encoder::new(vec![9; 6], 2);
    e.wr_bytes(&[1, 2]).unwrap();
    assert_eq!(e.position(), 4);
    e.wr_bytes(&[3, 4, 5]).unwrap();
    assert_eq!(e.into_inner(), (vec![9, 9, 1, 2, 3, 4, 5], 7));
}

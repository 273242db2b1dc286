use rustc_utils::rbml::{write_sized_vuint, write_tag, write_vuint, RbmlError};

#[test]
fn tags() {
    let mut w = Vec::new();
    assert_eq!(write_tag(&mut w, 0x12), Ok(()));
    assert_eq!(write_tag(&mut w, 0x123), Ok(()));
    assert_eq!(w, vec![0x12, 0xf1, 0x23]);
    assert_eq!(write_tag(&mut w, 0xf0), Err(RbmlError::InvalidTag(0xf0)));
    assert_eq!(write_tag(&mut w, 0x1000), Err(RbmlError::InvalidTag(0x1000)));
    assert_eq!(w, vec![0x12, 0xf1, 0x23]);
}

#[test]
fn sized_vuints() {
    let mut w = Vec::new();
    write_sized_vuint(&mut w, 5, 1).unwrap();
    write_sized_vuint(&mut w, 0x1234, 2).unwrap();
    write_sized_vuint(&mut w, 0x12345, 3).unwrap();
    write_sized_vuint(&mut w, 0x123456, 4).unwrap();
    assert_eq!(
        w,
        vec![0x85, 0x52, 0x34, 0x21, 0x23, 0x45, 0x10, 0x12, 0x34, 0x56]
    );
    assert_eq!(write_sized_vuint(&mut w, 7, 5), Err(RbmlError::TooBig(7)));
}

#[test]
fn vuints_take_the_shortest_encoding() {
    let mut w = Vec::new();
    write_vuint(&mut w, 0x7e).unwrap();
    assert_eq!(w, vec![0xfe]);
    let mut w = Vec::new();
    write_vuint(&mut w, 0x7f).unwrap();
    assert_eq!(w, vec![0x40, 0x7f]);
    let mut w = Vec::new();
    write_vuint(&mut w, 0x3fff).unwrap();
    assert_eq!(w, vec![0x7f, 0xff]);
    let mut w = Vec::new();
    write_vuint(&mut w, 0x4000).unwrap();
    assert_eq!(w, vec![0x20, 0x40, 0x00]);
    let mut w = Vec::new();
    write_vuint(&mut w, 0x0fff_ffff).unwrap();
    assert_eq!(w, vec![0x1f, 0xff, 0xff, 0xff]);
    let mut w = Vec::new();
    assert_eq!(write_vuint(&mut w, 0x1000_0000), Err(RbmlError::TooBig(0x1000_0000)));
    assert!(w.is_empty());
}

#[test]
fn vuints_read_back() {
    fn read(b: &[u8]) -> usize {
        if b[0] & 0x80 != 0 {
            (b[0] & 0x7f) as usize
        } else if b[0] & 0x40 != 0 {
            ((b[0] & 0x3f) as usize) << 8 | b[1] as usize
        } else if b[0] & 0x20 != 0 {
            ((b[0] & 0x1f) as usize) << 16 | (b[1] as usize) << 8 | b[2] as usize
        } else {
            ((b[0] & 0x0f) as usize) << 24 | (b[1] as usize) << 16 | (b[2] as usize) << 8 | b[3] as usize
        }
    }
    for n in [0usize, 1, 0x7e, 0x7f, 0x80, 0x3fff, 0x4000, 0x1fffff, 0x200000, 0xfffffff] {
        let mut w = Vec::new();
        write_vuint(&mut w, n).unwrap();
        assert_eq!(read(&w), n);
    }
}

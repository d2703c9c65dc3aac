use serde_ton::traits::reader::{Reader, SeekFrom, SliceReader, VecReader};

#[test]
fn test_slice_reader_cursor_ops() {
    let data = [10u8, 20, 30];
    let mut r = SliceReader::new(&data);
    assert_eq!(r.peek().unwrap(), Some(10));
    assert_eq!(r.next().unwrap(), Some(10));
    assert_eq!(r.next().unwrap(), Some(20));
    assert_eq!(r.prev().unwrap(), Some(20));
    assert_eq!(r.stream_position().unwrap(), 1);
    assert_eq!(r.seek(SeekFrom::End(0)).unwrap(), 3);
    assert_eq!(r.next().unwrap(), None);
    assert_eq!(r.seek(SeekFrom::Start(0)).unwrap(), 0);
    assert_eq!(r.prev().unwrap(), None);
    assert_eq!(r.into_inner(), &data);
}

#[test]
fn test_slice_reader_seek_clamps() {
    let data = [1u8, 2, 3, 4];
    let mut r = SliceReader::new(&data);
    // Backward past the start stops at 0.
    assert_eq!(r.seek(SeekFrom::Current(-10)).unwrap(), 0);
    assert_eq!(r.seek(SeekFrom::End(-10)).unwrap(), 0);
    // Relative forward stops at the end.
    assert_eq!(r.seek(SeekFrom::Current(100)).unwrap(), 4);
    // Absolute positions go as given, even past the end.
    assert_eq!(r.seek(SeekFrom::Start(9)).unwrap(), 9);
    assert_eq!(r.peek().unwrap(), None);
}

#[test]
fn test_slice_reader_le_reads() {
    let data = [0x2Au8, 0x00, 0x01, 0x02, 0x03, 0x04, 0x05, 0x06, 0x07];
    let mut r = SliceReader::new(&data);
    assert_eq!(r.read_u8().unwrap(), 0x2A);
    assert_eq!(r.read_u16().unwrap(), 0x0100);
    let mut r2 = SliceReader::new(&data);
    assert_eq!(r2.read_u32().unwrap(), 0x0201_002A);
    let mut r3 = SliceReader::new(&data);
    assert_eq!(r3.read_u64().unwrap(), 0x0605_0403_0201_002A);
    let mut r4 = SliceReader::new(&data[..3]);
    assert!(r4.read_u64().is_err());
}

#[test]
fn test_vec_reader_matches_slice_reader() {
    let data = vec![5u8, 6, 7, 8];
    let mut r = VecReader::new(&data);
    assert_eq!(r.read_u16().unwrap(), 0x0605);
    assert_eq!(r.stream_position().unwrap(), 2);
    assert_eq!(r.seek(SeekFrom::End(-1)).unwrap(), 3);
    assert_eq!(r.next().unwrap(), Some(8));
    assert_eq!(r.into_inner(), &data);
}

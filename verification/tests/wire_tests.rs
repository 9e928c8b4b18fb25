use ehosts::{Reader, Writer};

#[test]
fn reader_reads_big_endian_numbers() {
    let buf = [0x12u8, 0x34, 0x80, 0, 0, 1, 0xff];
    let mut r = Reader::new(&buf);
    assert_eq!(r.read_u16(), Some(0x1234));
    assert_eq!(r.read_i32(), Some(i32::MIN + 1));
    assert_eq!(r.read_u8(), Some(0xff));
    assert_eq!(r.read_u8(), None);
    assert_eq!(r.position(), 7);
}

#[test]
fn reader_refuses_short_reads_without_moving() {
    let buf = [1u8, 2, 3];
    let mut r = Reader::new(&buf);
    r.set_position(2);
    assert_eq!(r.read_u16(), None);
    assert_eq!(r.read_i32(), None);
    assert_eq!(r.position(), 2);
    assert_eq!(r.remaining(), 1);
}

#[test]
fn read_exact_takes_what_is_left() {
    let buf = [1u8, 2, 3, 4];
    let mut r = Reader::new(&buf);
    assert_eq!(r.read_exact(2), vec![1, 2]);
    assert_eq!(r.read_exact(5), vec![3, 4]);
    assert_eq!(r.position(), 4);
    assert_eq!(r.read_exact(1), Vec::<u8>::new());
    r.set_position(9);
    assert_eq!(r.read_exact(1), Vec::<u8>::new());
    assert_eq!(r.position(), 9);
}

#[test]
fn writer_writes_big_endian_and_drops_overflow() {
    let mut w = Writer::new(5);
    w.write_u16(0xabcd);
    w.write_i32(-2);
    assert_eq!(w.as_slice(), &[0xab, 0xcd, 0xff, 0xff, 0xff]);
    w.write(&[7, 7]);
    assert_eq!(w.as_slice().len(), 5);
    let mut w = Writer::new(8);
    w.write_i32(0x01020304);
    w.write(&[9]);
    assert_eq!(w.as_slice(), &[1, 2, 3, 4, 9]);
}

#[test]
fn what_the_writer_writes_the_reader_reads_back() {
    for v in [0u16, 1, 0x00ff, 0xff00, 0xffff, 12345] {
        let mut w = Writer::new(2);
        w.write_u16(v);
        let mut r = Reader::new(w.as_slice());
        assert_eq!(r.read_u16(), Some(v));
    }
    for v in [0i32, 1, -1, i32::MIN, i32::MAX, 299, -70000] {
        let mut w = Writer::new(4);
        w.write_i32(v);
        let mut r = Reader::new(w.as_slice());
        assert_eq!(r.read_i32(), Some(v));
    }
}

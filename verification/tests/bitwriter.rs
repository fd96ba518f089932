use jpeg_core::BitWriter;

#[test]
fn bitwriter_test_smoke() {
    let mut bwriter = BitWriter::new(Vec::new());
    bwriter.write_bits(1, 8);
    bwriter.flush();
    assert_eq!(bwriter.as_bytes()[0], 1)
}

#[test]
fn test_part_byte() {
    let mut bwriter = BitWriter::new(Vec::new());
    bwriter.write_bits(0b1010, 4);
    bwriter.flush();
    assert_eq!(bwriter.as_bytes()[0], 0b1010_1111)
}

#[test]
fn test_cross_one_byte_write() {
    let mut bwriter = BitWriter::new(Vec::new());
    bwriter.write_bits(0b1010, 4);
    bwriter.write_bits(0, 8);
    bwriter.flush();
    assert_eq!(bwriter.as_bytes()[0], 0b1010_0000);
    assert_eq!(bwriter.as_bytes()[1], 0b0000_1111);
}

#[test]
fn test_cross_two_byte_write() {
    let mut bwriter = BitWriter::new(Vec::new());
    bwriter.write_bits(0b1010, 4);
    bwriter.write_bits(0b1001_1111_0000_101, 15);
    bwriter.flush();
    assert_eq!(bwriter.as_bytes()[0], 0b1010_1001);
    assert_eq!(bwriter.as_bytes()[1], 0b1111_0000);
    assert_eq!(bwriter.as_bytes()[2], 0b101_11111);
}

#[test]
fn test_finish() {
    let mut bwriter = BitWriter::new(Vec::new());
    bwriter.write_bits(0b1001_1111_0000_101, 15);
    let buf = bwriter.finish();
    assert_eq!(buf[0], 0b1001_1111);
    assert_eq!(buf[1], 0b0000_1011);
}

#[test]
fn test_0xff_escape() {
    let mut bwriter = BitWriter::new(Vec::new());
    bwriter.write_bits(0b1111, 4);
    bwriter.write_bits(0b1111_01, 6);
    bwriter.flush();
    assert_eq!(bwriter.written, 3);
    assert_eq!(bwriter.as_bytes()[1], 0);
    assert_eq!(bwriter.as_bytes()[2], 0b0111_1111)
}

#[test]
fn bitwriter_keeps_initial_bytes() {
    let mut bwriter = BitWriter::new(vec![0xAB, 0xCD]);
    bwriter.write_bits(0b101, 3);
    assert_eq!(bwriter.as_bytes(), &[0xAB, 0xCD]);
    assert_eq!(bwriter.written, 0);
    let buf = bwriter.finish();
    assert_eq!(buf, vec![0xAB, 0xCD, 0b1011_1111]);
}

#[test]
fn bitwriter_ignores_bits_above_n() {
    let mut bwriter = BitWriter::new(Vec::new());
    bwriter.write_bits(0xFFF0, 4);
    bwriter.write_bits(0x0003, 4);
    assert_eq!(bwriter.finish(), vec![0x03]);
}

#[test]
fn bitwriter_sixteen_bits_msb_first() {
    let mut bwriter = BitWriter::new(Vec::new());
    bwriter.write_bits(0x1234, 16);
    bwriter.write_bits(0, 0);
    assert_eq!(bwriter.written, 2);
    assert_eq!(bwriter.finish(), vec![0x12, 0x34]);
}

#[test]
fn bitwriter_flush_twice_adds_nothing() {
    let mut bwriter = BitWriter::new(Vec::new());
    bwriter.write_bits(0b1, 1);
    bwriter.flush();
    bwriter.flush();
    assert_eq!(bwriter.as_bytes(), &[0xFF, 0x00]);
    assert_eq!(bwriter.written, 2);
}

#[test]
fn bitwriter_stuffs_every_ff() {
    let mut bwriter = BitWriter::new(Vec::new());
    bwriter.write_bits(0xFFFF, 16);
    bwriter.write_bits(0xFF, 8);
    assert_eq!(bwriter.finish(), vec![0xFF, 0x00, 0xFF, 0x00, 0xFF, 0x00]);
}

#[test]
fn bitwriter_empty_finish() {
    let bwriter = BitWriter::new(Vec::new());
    assert_eq!(bwriter.finish(), Vec::<u8>::new());
}

#[test]
fn bitwriter_more_than_sixteen_bits_from_byte_boundary() {
    // 20 bits of 0xFFFF: four zero bits, then sixteen ones.
    let mut bw = BitWriter::new(Vec::new());
    bw.write_bits(0xFFFF, 20);
    assert_eq!(bw.finish(), vec![0x0F, 0xFF, 0x00, 0xFF, 0x00]);
}

#[test]
fn bitwriter_write_nothing() {
    let mut a = BitWriter::new(vec![1]);
    a.write_bits(0b101, 3);
    let mut b = BitWriter::new(vec![1]);
    b.write_bits(0b101, 3);
    b.write_bits(0xFFFF, 0);
    assert_eq!(a.written, b.written);
    assert_eq!(a.finish(), b.finish());
}

#[test]
fn bitwriter_written_counts_stuffing() {
    let mut bw = BitWriter::new(vec![7, 7]);
    bw.write_bits(0xFF, 8);
    bw.write_bits(0x12, 8);
    assert_eq!(bw.written, 3);
    assert_eq!(bw.finish(), vec![7, 7, 0xFF, 0x00, 0x12]);
}

use jpeg_core::{
    encode_block, AcHuffmanTable, BitWriter, BlockI16, BlockU8, Dct, DcHuffmanTable, EncodeError,
    JpegEncoder, YCbCrImage,
};

/// A transform that maps every tile to the same coefficients.
struct ConstDct(BlockI16);

impl Dct for ConstDct {
    fn forward_dct(&self, _blk: &BlockU8) -> BlockI16 {
        self.0
    }
}

/// A transform that keeps only the level shifted mean as the DC term.
struct MeanDct;

impl Dct for MeanDct {
    fn forward_dct(&self, blk: &BlockU8) -> BlockI16 {
        let mut sum: i32 = 0;
        for row in blk {
            for p in row {
                sum += *p as i32 - 128;
            }
        }
        let mut out = [[0i16; 8]; 8];
        out[0][0] = (sum / 8) as i16;
        out
    }
}

fn gray_image(width: usize, height: usize, v: u8) -> YCbCrImage {
    YCbCrImage {
        width,
        height,
        y: vec![v; width * height],
        cb: vec![128; width * height],
        cr: vec![128; width * height],
    }
}

const SCAN_OF_ZERO_MCU: [u8; 15] = [
    0x3f, 0xcf, 0xf9, 0xff, 0x00, 0x34, 0x7f, 0x5f, 0xd7, 0xf4, 0x1f, 0xd7, 0xf5, 0xfd, 0x1f,
];

#[test]
fn encoder_test_smoke() {
    JpegEncoder::new(ConstDct([[0; 8]; 8]));
}

#[test]
fn encode_zero_coefficients() {
    let mut encoder = JpegEncoder::new(ConstDct([[0; 8]; 8]));
    let out = encoder.encode(&gray_image(8, 8, 128)).unwrap();
    assert_eq!(out.len(), 607 + 15 + 2);
    assert_eq!(&out[..2], &[0xFF, 0xD8]);
    assert_eq!(&out[2..6], &[0xFF, 0xE0, 0x00, 0x10]);
    assert_eq!(&out[20..25], &[0xFF, 0xDB, 0x00, 0x84, 0x00]);
    // luminance table in zigzag order starts 16, 11, 12, 14, 12, 10
    assert_eq!(&out[25..31], &[16, 11, 12, 14, 12, 10]);
    assert_eq!(&out[154..163], &[0xFF, 0xC0, 0x00, 0x11, 0x08, 0x00, 0x08, 0x00, 0x08]);
    assert_eq!(&out[173..177], &[0xFF, 0xC4, 0x01, 0xA2]);
    assert_eq!(&out[593..607], &[
        0xFF, 0xDA, 0x00, 0x0C, 0x03, 0x01, 0x00, 0x02, 0x11, 0x03, 0x11, 0x00, 0x3F, 0x00
    ]);
    assert_eq!(&out[607..622], &SCAN_OF_ZERO_MCU);
    assert_eq!(&out[622..], &[0xFF, 0xD9]);
}

#[test]
fn encode_size_in_frame_header() {
    let mut encoder = JpegEncoder::new(ConstDct([[0; 8]; 8]));
    let out = encoder.encode(&gray_image(320, 16, 128)).unwrap();
    assert_eq!(&out[159..163], &[0x00, 0x10, 0x01, 0x40]);
    assert_eq!(&out[out.len() - 2..], &[0xFF, 0xD9]);
}

#[test]
fn encode_is_repeatable() {
    let mut encoder = JpegEncoder::new(MeanDct);
    let img = gray_image(16, 8, 200);
    let a = encoder.encode(&img).unwrap();
    let b = encoder.encode(&img).unwrap();
    assert_eq!(a, b);
}

#[test]
fn encode_dc_out_of_range() {
    let mut encoder = JpegEncoder::new(ConstDct([[-32768; 8]; 8]));
    assert_eq!(encoder.encode(&gray_image(8, 8, 0)), Err(EncodeError::DcCategoryOutOfRange));
}

#[test]
fn encode_missing_chroma_ac_code() {
    let mut encoder = JpegEncoder::new(ConstDct([[32767; 8]; 8]));
    assert_eq!(encoder.encode(&gray_image(8, 8, 0)), Err(EncodeError::MissingAcCode));
}

#[test]
fn encode_block_writes_dc_and_eob() {
    let mut bw = BitWriter::new(Vec::new());
    let mut zz = [0i16; 64];
    zz[0] = 3;
    zz[1] = -1;
    let r = encode_block(
        &mut bw,
        &zz,
        1,
        &DcHuffmanTable::luminance(),
        &AcHuffmanTable::luminance(),
        false,
    );
    assert_eq!(r, Ok(()));
    // DC diff 2: category 2 code 011, amplitude 10; AC (0,-1): code 00, amplitude 0;
    // then ZRL ZRL ZRL (11111111001 each) and EOB (1010), padded with ones.
    let out = bw.finish();
    assert_eq!(out, vec![0x70, 0xFF, 0x00, 0x3F, 0xE7, 0xFC, 0xD7]);
}

#[test]
fn encode_block_checks_ac_codes_only_when_asked() {
    let mut zz = [0i16; 64];
    zz[5] = 2000;
    let mut bw = BitWriter::new(Vec::new());
    let strict = encode_block(
        &mut bw,
        &zz,
        0,
        &DcHuffmanTable::chrominance(),
        &AcHuffmanTable::chrominance(),
        true,
    );
    assert_eq!(strict, Err(EncodeError::MissingAcCode));
    let mut bw = BitWriter::new(Vec::new());
    let lax = encode_block(
        &mut bw,
        &zz,
        0,
        &DcHuffmanTable::chrominance(),
        &AcHuffmanTable::chrominance(),
        false,
    );
    assert_eq!(lax, Ok(()));
}

/// A transform whose DC term is the tile's top-left sample, so that the
/// quantised luminance DC (divisor 16) is that sample.
struct CornerDct;

impl Dct for CornerDct {
    fn forward_dct(&self, blk: &BlockU8) -> BlockI16 {
        let mut out = [[0i16; 8]; 8];
        out[0][0] = blk[0][0] as i16 * 16;
        out
    }
}

#[test]
fn encode_visits_tiles_in_raster_order() {
    let width = 16;
    let height = 8;
    let mut y = vec![0u8; width * height];
    for row in 0..height {
        for col in 0..width {
            y[row * width + col] = if col < 8 { 1 } else { 2 };
        }
    }
    let img = YCbCrImage {
        width,
        height,
        y,
        cb: vec![0; width * height],
        cr: vec![0; width * height],
    };
    let out = JpegEncoder::new(CornerDct).encode(&img).unwrap();

    // The same scan written block by block: Y DC 1 then 2, Cb and Cr DC 0.
    let mut y1 = [0i16; 64];
    y1[0] = 1;
    let mut y2 = [0i16; 64];
    y2[0] = 2;
    let zero = [0i16; 64];
    let (ydc, yac) = (DcHuffmanTable::luminance(), AcHuffmanTable::luminance());
    let (cdc, cac) = (DcHuffmanTable::chrominance(), AcHuffmanTable::chrominance());
    let mut bw = BitWriter::new(Vec::new());
    for (zz, prev) in [(&y1, 0), (&y2, 1)] {
        assert_eq!(encode_block(&mut bw, zz, prev, &ydc, &yac, false), Ok(()));
        assert_eq!(encode_block(&mut bw, &zero, 0, &cdc, &cac, true), Ok(()));
        assert_eq!(encode_block(&mut bw, &zero, 0, &cdc, &cac, false), Ok(()));
    }
    let scan = bw.finish();
    assert_eq!(&out[607..out.len() - 2], &scan[..]);
    assert_eq!(&out[out.len() - 2..], &[0xFF, 0xD9]);

    // With the tiles swapped the first Y DC difference is 2, not 1.
    let mut swapped = img;
    for row in 0..height {
        for col in 0..width {
            swapped.y[row * width + col] = if col < 8 { 2 } else { 1 };
        }
    }
    let other = JpegEncoder::new(CornerDct).encode(&swapped).unwrap();
    assert_ne!(out, other);
}

#[test]
fn encode_ignores_earlier_state() {
    let img = gray_image(16, 16, 90);
    let mut used = JpegEncoder::new(MeanDct);
    used.encode(&gray_image(8, 8, 250)).unwrap();
    let a = used.encode(&img).unwrap();
    let b = JpegEncoder::new(MeanDct).encode(&img).unwrap();
    assert_eq!(a, b);
}

fn standard_tables() -> (DcHuffmanTable, AcHuffmanTable, DcHuffmanTable, AcHuffmanTable) {
    (
        DcHuffmanTable::luminance(),
        AcHuffmanTable::luminance(),
        DcHuffmanTable::chrominance(),
        AcHuffmanTable::chrominance(),
    )
}

#[test]
fn encode_mcu_codes_three_blocks() {
    let tables = standard_tables();
    let mut encoder = JpegEncoder::new(ConstDct([[0; 8]; 8]));
    let mut y = [[0i16; 8]; 8];
    y[0][0] = 32; // quantised by 16: DC 2
    let mut bw = BitWriter::new(Vec::new());
    assert_eq!(encoder.encode_mcu(&mut bw, y, [[0; 8]; 8], [[0; 8]; 8], &tables), Ok(()));

    let mut yz = [0i16; 64];
    yz[0] = 2;
    let zero = [0i16; 64];
    let mut expected = BitWriter::new(Vec::new());
    assert_eq!(encode_block(&mut expected, &yz, 0, &tables.0, &tables.1, false), Ok(()));
    assert_eq!(encode_block(&mut expected, &zero, 0, &tables.2, &tables.3, true), Ok(()));
    assert_eq!(encode_block(&mut expected, &zero, 0, &tables.2, &tables.3, false), Ok(()));
    assert_eq!(bw.finish(), expected.finish());

    // The next MCU predicts its Y DC from 2.
    let mut bw = BitWriter::new(Vec::new());
    assert_eq!(encoder.encode_mcu(&mut bw, y, [[0; 8]; 8], [[0; 8]; 8], &tables), Ok(()));
    let mut expected = BitWriter::new(Vec::new());
    assert_eq!(encode_block(&mut expected, &yz, 2, &tables.0, &tables.1, false), Ok(()));
    assert_eq!(encode_block(&mut expected, &zero, 0, &tables.2, &tables.3, true), Ok(()));
    assert_eq!(encode_block(&mut expected, &zero, 0, &tables.2, &tables.3, false), Ok(()));
    assert_eq!(bw.finish(), expected.finish());
}

#[test]
fn encode_mcu_reports_first_failing_block() {
    let tables = standard_tables();
    // Y DC 2047 (size 11) is fine, but Cb's AC values have no code.
    let mut y = [[0i16; 8]; 8];
    y[0][0] = 2047 * 16;
    let big = [[32767i16; 8]; 8];
    let mut encoder = JpegEncoder::new(ConstDct([[0; 8]; 8]));
    let mut bw = BitWriter::new(Vec::new());
    assert_eq!(
        encoder.encode_mcu(&mut bw, y, big, [[0; 8]; 8], &tables),
        Err(EncodeError::MissingAcCode)
    );
    // A Y DC of size 12 fails first, whatever follows.
    let mut y = [[0i16; 8]; 8];
    y[0][0] = -32768; // quantised by 16: DC -2048
    let mut encoder = JpegEncoder::new(ConstDct([[0; 8]; 8]));
    let mut bw = BitWriter::new(Vec::new());
    assert_eq!(
        encoder.encode_mcu(&mut bw, y, big, [[0; 8]; 8], &tables),
        Err(EncodeError::DcCategoryOutOfRange)
    );
}

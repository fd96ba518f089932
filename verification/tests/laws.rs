use jpeg_core::huffman::{
    C_AC_BITS, C_AC_CODES, C_AC_SIZES, C_AC_VALS, C_DC_BITS, C_DC_CODES, C_DC_SIZES, C_DC_VALS,
    Y_AC_BITS, Y_AC_CODES, Y_AC_SIZES, Y_AC_VALS, Y_DC_BITS, Y_DC_CODES, Y_DC_SIZES, Y_DC_VALS,
};
use jpeg_core::{BitWriter, BlockI16, BlockU8, Dct, JpegEncoder, YCbCrImage};

fn unstuff(b: &[u8]) -> Vec<u8> {
    let mut out = Vec::new();
    let mut i = 0;
    while i < b.len() {
        out.push(b[i]);
        if b[i] == 0xFF && i + 1 < b.len() && b[i + 1] == 0 {
            i += 2;
        } else {
            i += 1;
        }
    }
    out
}

fn unpack(b: &[u8]) -> Vec<bool> {
    let mut out = Vec::new();
    for x in b {
        for k in (0..8).rev() {
            out.push((x >> k) & 1 == 1);
        }
    }
    out
}

fn bits(value: u16, n: usize) -> Vec<bool> {
    (0..n).map(|i| (value >> (n - 1 - i)) & 1 == 1).collect()
}

fn marker_free(b: &[u8]) -> bool {
    (0..b.len()).all(|i| b[i] != 0xFF || (i + 1 < b.len() && b[i + 1] == 0))
}

#[test]
fn written_bits_read_back() {
    let writes: [(u16, usize); 7] =
        [(0b1, 1), (0xFFFF, 16), (0x1234, 13), (0, 5), (0xFF, 8), (0b101, 3), (0x7F, 7)];
    let mut bw = BitWriter::new(vec![0xFF, 0xD8]);
    let mut expected = Vec::new();
    for (v, n) in writes {
        bw.write_bits(v, n);
        expected.extend(bits(v, n));
    }
    while expected.len() % 8 != 0 {
        expected.push(true);
    }
    let out = bw.finish();
    assert_eq!(&out[..2], &[0xFF, 0xD8]);
    assert!(marker_free(&out[2..]));
    assert_eq!(unpack(&unstuff(&out[2..])), expected);
}

#[test]
fn two_writes_equal_one() {
    let mut a = BitWriter::new(Vec::new());
    a.write_bits(0b110, 3);
    a.write_bits(0b0101_1100_1, 9);
    let mut b = BitWriter::new(Vec::new());
    b.write_bits(0b110_0101_1100_1, 12);
    assert_eq!(a.finish(), b.finish());
}

fn canonical(bits: &[u8; 16], vals: &[u8], n: usize) -> (Vec<u16>, Vec<u8>) {
    let mut codes = vec![0u16; n];
    let mut sizes = vec![0u8; n];
    let mut code: u32 = 0;
    let mut k = 0;
    for len in 1..=16 {
        for _ in 0..bits[len - 1] {
            codes[vals[k] as usize] = code as u16;
            sizes[vals[k] as usize] = len as u8;
            code += 1;
            k += 1;
        }
        code <<= 1;
    }
    (codes, sizes)
}

#[test]
fn tables_match_dht_description() {
    assert_eq!(canonical(&Y_DC_BITS, &Y_DC_VALS, 12), (Y_DC_CODES.to_vec(), Y_DC_SIZES.to_vec()));
    assert_eq!(canonical(&C_DC_BITS, &C_DC_VALS, 12), (C_DC_CODES.to_vec(), C_DC_SIZES.to_vec()));
    assert_eq!(canonical(&Y_AC_BITS, &Y_AC_VALS, 256), (Y_AC_CODES.to_vec(), Y_AC_SIZES.to_vec()));
    assert_eq!(canonical(&C_AC_BITS, &C_AC_VALS, 256), (C_AC_CODES.to_vec(), C_AC_SIZES.to_vec()));
}

/// A transform whose output depends on the tile contents.
struct RampDct;

impl Dct for RampDct {
    fn forward_dct(&self, blk: &BlockU8) -> BlockI16 {
        let mut out = [[0i16; 8]; 8];
        for r in 0..8 {
            for c in 0..8 {
                out[r][c] = (blk[r][c] as i16 - 128) * (8 - r as i16) * 3;
            }
        }
        out
    }
}

#[test]
fn encoded_scan_is_marker_free() {
    let (w, h) = (24, 16);
    let mut img = YCbCrImage { width: w, height: h, y: vec![0; w * h], cb: vec![0; w * h], cr: vec![0; w * h] };
    for i in 0..w * h {
        img.y[i] = (i * 37 % 256) as u8;
        img.cb[i] = (i * 11 % 256) as u8;
        img.cr[i] = 255 - (i * 5 % 256) as u8;
    }
    let mut encoder = JpegEncoder::new(RampDct);
    let out = encoder.encode(&img).unwrap();
    let scan = &out[607..out.len() - 2];
    assert!(marker_free(scan));
    assert_eq!(&out[out.len() - 2..], &[0xFF, 0xD9]);
}

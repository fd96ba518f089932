use jpeg_core::calculate_size_and_amp;
use jpeg_core::huffman::{
    C_AC_CODES, C_AC_SIZES, C_DC_CODES, C_DC_SIZES, Y_AC_CODES, Y_AC_SIZES, Y_DC_CODES,
    Y_DC_SIZES,
};

#[test]
fn test_caculate_size_and_amp() {
    let tests = [
        (-7, (3, 0b000)),
        (-6, (3, 0b001)),
        (-5, (3, 0b010)),
        (-4, (3, 0b011)),
        (4, (3, 0b100)),
        (5, (3, 0b101)),
        (6, (3, 0b110)),
        (7, (3, 0b111)),
    ];

    for t in tests {
        let (raw, expected) = t;
        assert_eq!(calculate_size_and_amp(raw), expected);
    }
}

#[test]
fn size_and_amp_edges() {
    assert_eq!(calculate_size_and_amp(0), (0, 0));
    assert_eq!(calculate_size_and_amp(1), (1, 1));
    assert_eq!(calculate_size_and_amp(-1), (1, 0));
    assert_eq!(calculate_size_and_amp(i16::MAX), (15, 0x7FFF));
    assert_eq!(calculate_size_and_amp(-32767), (15, 0));
    assert_eq!(calculate_size_and_amp(-1024), (11, 1023));
}

#[test]
fn size_and_amp_decode_back() {
    for raw in -2000i16..2000 {
        let (size, amp) = calculate_size_and_amp(raw);
        let decoded = if size == 0 {
            0
        } else if (amp as i32) < (1 << (size - 1)) {
            amp as i32 - (1 << size) + 1
        } else {
            amp as i32
        };
        assert_eq!(decoded, raw as i32);
    }
}

#[test]
fn standard_codes() {
    assert_eq!((Y_DC_CODES[0], Y_DC_SIZES[0]), (0b00, 2));
    assert_eq!((Y_DC_CODES[11], Y_DC_SIZES[11]), (0b111111110, 9));
    assert_eq!((C_DC_CODES[0], C_DC_SIZES[0]), (0b00, 2));
    assert_eq!((C_DC_CODES[11], C_DC_SIZES[11]), (0b11111111110, 11));
    assert_eq!((Y_AC_CODES[0x00], Y_AC_SIZES[0x00]), (0b1010, 4));
    assert_eq!((Y_AC_CODES[0xF0], Y_AC_SIZES[0xF0]), (0b11111111001, 11));
    assert_eq!((C_AC_CODES[0x00], C_AC_SIZES[0x00]), (0b00, 2));
    assert_eq!((C_AC_CODES[0xF0], C_AC_SIZES[0xF0]), (0b1111111010, 10));
    assert_eq!(Y_AC_SIZES[0x0B], 0);
    assert_eq!(C_AC_SIZES[0x0C], 0);
}

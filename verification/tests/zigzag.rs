use jpeg_core::{zigzag_scan, BlockI16};

#[test]
fn zigzag_test_smoke() {
    let blk: BlockI16 = [
        [11, 12, 16, 17, 99, 99, 99, 99],
        [13, 15, 18, 99, 99, 99, 99, 99],
        [14, 19, 99, 99, 99, 99, 99, 99],
        [20, 99, 99, 99, 99, 99, 99, 99],
        [99, 99, 99, 99, 99, 99, 99, 99],
        [99, 99, 99, 99, 99, 99, 99, 99],
        [99, 99, 99, 99, 99, 99, 99, 99],
        [99, 99, 99, 99, 99, 99, 99, 99],
    ];
    assert_eq!(zigzag_scan(&blk)[0], 11)
}

#[test]
fn test_zigzag_enc() {
    let blk: BlockI16 = [
        [11, 12, 16, 17, 99, 99, 99, 99],
        [13, 15, 18, 99, 99, 99, 99, 99],
        [14, 19, 99, 99, 99, 99, 99, 99],
        [20, 99, 99, 99, 99, 99, 99, 99],
        [99, 99, 99, 99, 99, 99, 99, 99],
        [99, 99, 99, 99, 99, 99, 99, 99],
        [99, 99, 99, 99, 99, 99, 99, 99],
        [99, 99, 99, 99, 99, 99, 99, 99],
    ];
    let mut expected = [0i16; 64];
    for i in 0..64 {
        expected[i] = if i < 10 { 11 + i as i16 } else { 99 };
    }
    let buf = zigzag_scan(&blk);
    assert_eq!(buf, expected)
}

#[test]
fn zigzag_visits_every_position_once() {
    let mut blk: BlockI16 = [[0; 8]; 8];
    for r in 0..8 {
        for c in 0..8 {
            blk[r][c] = (r * 8 + c) as i16;
        }
    }
    let out = zigzag_scan(&blk);
    let mut seen = [false; 64];
    for v in out {
        assert!(!seen[v as usize]);
        seen[v as usize] = true;
    }
    assert_eq!(&out[..6], &[0, 1, 8, 16, 9, 2]);
    assert_eq!(out[63], 63);
}

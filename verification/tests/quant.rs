use jpeg_core::{quant, quant_mut, BlockI16, QC, QY};

#[test]
fn quant_test_smoke() {
    let expected = [[1; 8]; 8];
    assert_eq!(quant(&QY, &QY), expected);
    assert_eq!(quant(&QC, &QC), expected);
}

#[test]
fn quant_rounds_toward_zero() {
    let mut blk: BlockI16 = [[0; 8]; 8];
    blk[0][0] = -33;
    blk[0][1] = 33;
    blk[7][7] = -98;
    let q = quant(&blk, &QY);
    assert_eq!(q[0][0], -2);
    assert_eq!(q[0][1], 3);
    assert_eq!(q[7][7], 0);
}

#[test]
fn quant_mut_matches_quant() {
    let mut blk: BlockI16 = [[0; 8]; 8];
    for r in 0..8 {
        for c in 0..8 {
            blk[r][c] = (r as i16 * 97 - c as i16 * 331) * 3;
        }
    }
    let q = quant(&blk, &QC);
    quant_mut(&mut blk, &QC);
    assert_eq!(blk, q);
}

#[test]
fn quant_negative_divisor() {
    let blk: BlockI16 = [[7; 8]; 8];
    let table: BlockI16 = [[-2; 8]; 8];
    assert_eq!(quant(&blk, &table), [[-3; 8]; 8]);
}

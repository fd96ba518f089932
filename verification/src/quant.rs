//! Quantisation of DCT coefficients.
use crate::dct::BlockI16;
use vstd::prelude::*;

verus! {

/// Luminance quantisation table.
pub const QY: BlockI16 = [
    [16, 11, 10, 16, 24, 40, 51, 61],
    [12, 12, 14, 19, 26, 58, 60, 55],
    [14, 13, 16, 24, 40, 57, 69, 56],
    [14, 17, 22, 29, 51, 87, 80, 62],
    [18, 22, 37, 56, 68, 109, 103, 77],
    [24, 35, 55, 64, 81, 104, 113, 92],
    [49, 64, 78, 87, 103, 121, 120, 101],
    [72, 92, 95, 98, 112, 100, 103, 99],
];

/// Chrominance quantisation table.
pub const QC: BlockI16 = [
    [17, 18, 24, 47, 99, 99, 99, 99],
    [18, 21, 26, 66, 99, 99, 99, 99],
    [24, 26, 56, 99, 99, 99, 99, 99],
    [47, 66, 99, 99, 99, 99, 99, 99],
    [99, 99, 99, 99, 99, 99, 99, 99],
    [99, 99, 99, 99, 99, 99, 99, 99],
    [99, 99, 99, 99, 99, 99, 99, 99],
    [99, 99, 99, 99, 99, 99, 99, 99],
];

/// Integer division rounding toward zero, as Rust's `/` does.
pub open spec fn div_trunc(a: int, b: int) -> int {
    if a >= 0 {
        a / b
    } else {
        -((-a) / b)
    }
}

/// Every entry of `table` divides the matching entry of `blk` without
/// fault: no division by zero and no `i16::MIN / -1`.
pub open spec fn divisible_by(blk: BlockI16, table: BlockI16) -> bool {
    forall|i: int, j: int|
        0 <= i < 8 && 0 <= j < 8 ==> #[trigger] table[i][j] != 0 && !(blk[i][j] == i16::MIN
            && table[i][j] == -1)
}

/// `out` is `blk` divided entry by entry by `table`, rounding toward zero.
pub open spec fn is_quantized(out: BlockI16, blk: BlockI16, table: BlockI16) -> bool {
    forall|i: int, j: int|
        0 <= i < 8 && 0 <= j < 8 ==> #[trigger] out[i][j] == div_trunc(
            blk[i][j] as int,
            table[i][j] as int,
        )
}

/// Quantisation has one result: `quant` and `quant_mut` agree.
pub proof fn lemma_quantized_unique(a: BlockI16, b: BlockI16, blk: BlockI16, table: BlockI16)
    requires
        is_quantized(a, blk, table),
        is_quantized(b, blk, table),
    ensures
        a == b,
{
    assert forall|i: int| 0 <= i < 8 implies #[trigger] a[i] == b[i] by {
        assert(a[i]@ =~= b[i]@);
    }
    assert(a@ =~= b@);
}

#[verifier::nonlinear]
fn div_coeff(a: i16, b: i16) -> (c: i16)
    requires
        b != 0,
        !(a == i16::MIN && b == -1),
    ensures
        c == div_trunc(a as int, b as int),
{
    a / b
}

/// Divides each coefficient by the matching table entry.
pub fn quant(blk: &BlockI16, table: &BlockI16) -> (result: BlockI16)
    requires
        divisible_by(*blk, *table),
    ensures
        is_quantized(result, *blk, *table),
{
    let mut result = [[0i16; 8]; 8];
    for i in 0..8
        invariant
            divisible_by(*blk, *table),
            forall|r: int, c: int|
                0 <= r < i && 0 <= c < 8 ==> #[trigger] result[r][c] == div_trunc(
                    blk[r][c] as int,
                    table[r][c] as int,
                ),
    {
        for j in 0..8
            invariant
                0 <= i < 8,
                divisible_by(*blk, *table),
                forall|r: int, c: int|
                    (0 <= r < i && 0 <= c < 8) || (r == i && 0 <= c < j) ==> #[trigger] result[r][c]
                        == div_trunc(blk[r][c] as int, table[r][c] as int),
        {
            assert(table[i as int][j as int] != 0);
            result[i][j] = div_coeff(blk[i][j], table[i][j]);
        }
    }
    result
}

/// Divides each coefficient by the matching table entry, in place.
pub fn quant_mut(blk: &mut BlockI16, table: &BlockI16)
    requires
        divisible_by(*old(blk), *table),
    ensures
        is_quantized(*final(blk), *old(blk), *table),
{
    let ghost orig = *blk;
    for i in 0..8
        invariant
            orig == *old(blk),
            divisible_by(orig, *table),
            forall|r: int, c: int|
                0 <= r < 8 && 0 <= c < 8 ==> #[trigger] blk[r][c] as int == (if r < i {
                    div_trunc(orig[r][c] as int, table[r][c] as int)
                } else {
                    orig[r][c] as int
                }),
    {
        for j in 0..8
            invariant
                0 <= i < 8,
                divisible_by(orig, *table),
                forall|r: int, c: int|
                    0 <= r < 8 && 0 <= c < 8 ==> #[trigger] blk[r][c] as int == (if r < i || (r == i
                        && c < j) {
                        div_trunc(orig[r][c] as int, table[r][c] as int)
                    } else {
                        orig[r][c] as int
                    }),
        {
            assert(table[i as int][j as int] != 0);
            blk[i][j] = div_coeff(blk[i][j], table[i][j]);
        }
    }
}

} // verus!

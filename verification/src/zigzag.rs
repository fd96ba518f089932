use vstd::prelude::*;

verus! {

/// Natural (row-major) index of the `i`-th coefficient in JPEG zigzag order.
pub const JPEG_ZIGZAG_LUT: [usize; 64] = [
    0, 1, 8, 16, 9, 2, 3, 10, 17, 24, 32, 25, 18, 11, 4, 5, 12, 19, 26, 33, 40, 48, 41, 34, 27, 20,
    13, 6, 7, 14, 21, 28, 35, 42, 49, 56, 57, 50, 43, 36, 29, 22, 15, 23, 30, 37, 44, 51, 58, 59,
    52, 45, 38, 31, 39, 46, 53, 60, 61, 54, 47, 55, 62, 63,
];

/// Reads an 8x8 block in zigzag order.
pub fn zigzag_scan(blk: &[[i16; 8]; 8]) -> (result: [i16; 64])
    ensures
        forall|i: int| 0 <= i < 64 ==> #[trigger] result[i] == blk[(JPEG_ZIGZAG_LUT[i] / 8) as int][(JPEG_ZIGZAG_LUT[i] % 8) as int],
{
    let mut result = [0i16; 64];
    for i in 0..64
        invariant
            forall|k: int| 0 <= k < i ==> #[trigger] result[k] == blk[(JPEG_ZIGZAG_LUT[k] / 8) as int][(JPEG_ZIGZAG_LUT[k] % 8) as int],
    {
        let natural_index = JPEG_ZIGZAG_LUT[i];
        result[i] = blk[natural_index / 8][natural_index % 8];
    }
    result
}


/// Position in zigzag order of the coefficient at natural index `p`.
pub open spec fn zigzag_position(p: int) -> int {
    seq![
        0int, 1, 5, 6, 14, 15, 27, 28, 2, 4, 7, 13, 16, 26, 29, 42, 3, 8, 12, 17, 25, 30, 41, 43, 9,
        11, 18, 24, 31, 40, 44, 53, 10, 19, 23, 32, 39, 45, 52, 54, 20, 22, 33, 38, 46, 51, 55, 60,
        21, 34, 37, 47, 50, 56, 59, 61, 35, 36, 48, 49, 57, 58, 62, 63,
    ][p]
}

/// The zigzag order is a permutation of the 64 positions of a block.
pub proof fn lemma_zigzag_permutation()
    ensures
        forall|i: int| 0 <= i < 64 ==> #[trigger] JPEG_ZIGZAG_LUT[i] < 64,
        forall|i: int| 0 <= i < 64 ==> zigzag_position(#[trigger] JPEG_ZIGZAG_LUT[i] as int) == i,
        forall|p: int| 0 <= p < 64 ==> 0 <= #[trigger] zigzag_position(p) < 64,
        forall|p: int| 0 <= p < 64 ==> JPEG_ZIGZAG_LUT[#[trigger] zigzag_position(p)] == p,
{
    assert(forall|i: int| 0 <= i < 64 ==> #[trigger] JPEG_ZIGZAG_LUT[i] < 64);
    assert(forall|i: int| 0 <= i < 64 ==> zigzag_position(#[trigger] JPEG_ZIGZAG_LUT[i] as int) == i);
    assert(forall|p: int| 0 <= p < 64 ==> 0 <= #[trigger] zigzag_position(p) < 64);
    assert(forall|p: int| 0 <= p < 64 ==> JPEG_ZIGZAG_LUT[#[trigger] zigzag_position(p)] == p);
}

/// A zigzag scan loses no coefficient: each entry of the block is found at
/// its zigzag position.
pub proof fn lemma_zigzag_scan_complete(blk: [[i16; 8]; 8], result: [i16; 64])
    requires
        forall|i: int|
            0 <= i < 64 ==> #[trigger] result[i] == blk[(JPEG_ZIGZAG_LUT[i] / 8) as int][(
            JPEG_ZIGZAG_LUT[i] % 8) as int],
    ensures
        forall|r: int, c: int|
            0 <= r < 8 && 0 <= c < 8 ==> #[trigger] blk[r][c] == result[zigzag_position(8 * r + c)],
{
    lemma_zigzag_permutation();
    assert forall|r: int, c: int| 0 <= r < 8 && 0 <= c < 8 implies #[trigger] blk[r][c]
        == result[zigzag_position(8 * r + c)] by {
        let i = zigzag_position(8 * r + c);
        assert(JPEG_ZIGZAG_LUT[i] == 8 * r + c);
        assert(result[i] == blk[(JPEG_ZIGZAG_LUT[i] / 8) as int][(JPEG_ZIGZAG_LUT[i] % 8) as int]);
    }
}

} // verus!

//! Baseline sequential JPEG encoding.
use crate::bitstream::{bits_of, encoded, lemma_output_reads_back, marker_free, pad, unpack, unstuff};
use crate::bitwriter::BitWriter;
use crate::color::YCbCrImage;
use crate::dct::{BlockI16, BlockU8, Dct};
use crate::huffman::{
    amplitude, calculate_size_and_amp, size_category, AcHuffmanTable, DcHuffmanTable, C_AC_CODES,
    C_AC_SIZES, C_DC_CODES, C_DC_SIZES, Y_AC_CODES, Y_AC_SIZES, Y_DC_CODES, Y_DC_SIZES,
};
use crate::markers::{
    app0_bytes, dht_bytes, dqt_bytes, eoi_bytes, soi_bytes, sof0_bytes, sos_bytes, write_app0,
    write_dht, write_dqt, write_eoi, write_sof0, write_soi, write_sos,
};
use crate::quant::{div_trunc, quant_mut, QC, QY};
use crate::rle::{lemma_run_pairs_bounds, rle, run_pairs, AcPair};
use crate::zigzag::{zigzag_scan, JPEG_ZIGZAG_LUT};
use vstd::prelude::*;

verus! {

/// Why a block could not be entropy coded.
#[derive(Debug, PartialEq, Eq)]
pub enum EncodeError {
    /// The DC difference falls in a size category past the DC table.
    DcCategoryOutOfRange,
    /// A chrominance AC symbol has no code in its table.
    MissingAcCode,
}

/// The amplitude bits of a coefficient.
pub open spec fn amp_bits(v: i16) -> Seq<bool> {
    bits_of(amplitude(v) as u16, size_category(v))
}

/// The bits of the DC difference of a block.
pub open spec fn dc_bits(diff: i16, dc: DcHuffmanTable) -> Seq<bool> {
    bits_of(dc.codes[size_category(diff) as int], dc.sizes[size_category(diff) as int] as nat)
        + amp_bits(diff)
}

/// The AC symbol of a run-length pair: the run in the high nibble, the size
/// category of the value in the low one.
pub open spec fn ac_symbol(p: AcPair) -> int {
    p.0 * 16 + size_category(p.1)
}

/// The bits of one run-length pair: the Huffman code of its symbol, then the
/// amplitude bits of its value.
pub open spec fn pair_bits(p: AcPair, ac: AcHuffmanTable) -> Seq<bool> {
    bits_of(ac.codes[ac_symbol(p)], ac.sizes[ac_symbol(p)] as nat) + amp_bits(p.1)
}

/// The bits of a sequence of run-length pairs.
pub open spec fn ac_bits(pairs: Seq<AcPair>, ac: AcHuffmanTable) -> Seq<bool>
    decreases pairs.len(),
{
    if pairs.len() == 0 {
        Seq::empty()
    } else {
        ac_bits(pairs.drop_last(), ac) + pair_bits(pairs.last(), ac)
    }
}

/// The entropy-coded bits of a zigzag-ordered block whose DC is predicted
/// by `prev`.
pub open spec fn block_bits(
    zz: Seq<i16>,
    prev: i16,
    dc: DcHuffmanTable,
    ac: AcHuffmanTable,
) -> Seq<bool> {
    dc_bits((zz[0] - prev) as i16, dc) + ac_bits(run_pairs(zz.skip(1)), ac)
}

/// The block can be coded with these tables: its DC size category has a
/// code, and, when `check_ac` holds, so does each AC symbol.
pub open spec fn block_codable(
    zz: Seq<i16>,
    prev: i16,
    ac: AcHuffmanTable,
    check_ac: bool,
) -> bool {
    &&& size_category((zz[0] - prev) as i16) < 12
    &&& check_ac ==> forall|j: int|
        0 <= j < run_pairs(zz.skip(1)).len() ==> ac.sizes[ac_symbol(
            #[trigger] run_pairs(zz.skip(1))[j],
        )] != 0
}

/// The error that coding a block that cannot be coded gives: a DC
/// difference past the DC table, else a missing AC code.
pub open spec fn block_error(zz: Seq<i16>, prev: i16) -> EncodeError {
    if size_category((zz[0] - prev) as i16) >= 12 {
        EncodeError::DcCategoryOutOfRange
    } else {
        EncodeError::MissingAcCode
    }
}

/// Table code lengths never exceed 16 bits.
pub open spec fn tables_wf(dc: DcHuffmanTable, ac: AcHuffmanTable) -> bool {
    &&& forall|i: int| 0 <= i < 12 ==> dc.sizes[i] <= 16
    &&& forall|i: int| 0 <= i < 256 ==> ac.sizes[i] <= 16
}

proof fn lemma_symbol(k: u8, s: u8)
    by (bit_vector)
    requires
        k < 16,
        s < 16,
    ensures
        (k << 4u8 | s) == k * 16 + s,
{
}

/// Entropy codes one zigzag-ordered block: the DC difference from `dc_prev`,
/// then the run-length pairs of the AC coefficients.
#[verifier::rlimit(50)]
pub fn encode_block(
    bw: &mut BitWriter,
    zz: &[i16; 64],
    dc_prev: i16,
    dc: &DcHuffmanTable,
    ac: &AcHuffmanTable,
    check_ac: bool,
) -> (r: Result<(), EncodeError>)
    requires
        old(bw).wf(),
        old(bw).written_count() <= old(bw).buffered().len(),
        i16::MIN < zz[0] - dc_prev <= i16::MAX,
        forall|k: int| 1 <= k < 64 ==> zz[k] != i16::MIN,
        tables_wf(*dc, *ac),
    ensures
        final(bw).wf(),
        final(bw).prefix() == old(bw).prefix(),
        final(bw).written_count() == old(bw).written_count() + (final(bw).buffered().len() - old(
            bw,
        ).buffered().len()),
        r is Ok <==> block_codable(zz@, dc_prev, *ac, check_ac),
        r is Ok ==> final(bw).stream() == old(bw).stream() + block_bits(zz@, dc_prev, *dc, *ac),
        r == Err::<(), EncodeError>(EncodeError::DcCategoryOutOfRange) <==> size_category(
            (zz[0] - dc_prev) as i16,
        ) >= 12,
        r matches Err(e) ==> e == block_error(zz@, dc_prev),
{
    let (dc_diff, pairs) = rle(*zz, dc_prev);
    let (size, amp) = calculate_size_and_amp(dc_diff);
    if size as usize >= 12 {
        return Err(EncodeError::DcCategoryOutOfRange);
    }
    let ghost s0 = bw.stream();
    let ghost w0 = bw.written_count();
    let ghost b0 = bw.buffered().len();
    bw.write_bits(dc.codes[size as usize], dc.sizes[size as usize] as usize);
    bw.write_bits(amp, size as usize);
    proof {
        assert(bw.stream() =~= s0 + dc_bits(dc_diff, *dc));
        lemma_run_pairs_bounds(zz@.skip(1), 32767);
    }
    let ghost s1 = bw.stream();
    let ghost ps = pairs@;
    let n = pairs.len();
    for i in 0..n
        invariant
            n == pairs@.len(),
            ps == pairs@,
            ps == run_pairs(zz@.skip(1)),
            forall|j: int| 0 <= j < ps.len() ==> (#[trigger] ps[j]).0 < 16 && -32767 <= ps[j].1 <= 32767,
            bw.wf(),
            bw.prefix() == old(bw).prefix(),
            bw.written_count() == w0 + (bw.buffered().len() - b0),
            w0 == old(bw).written_count(),
            b0 == old(bw).buffered().len(),
            w0 <= b0,
            bw.stream() == s1 + ac_bits(ps.take(i as int), *ac),
            check_ac ==> forall|j: int| 0 <= j < i ==> ac.sizes[ac_symbol(#[trigger] ps[j])] != 0,
            size_category((zz[0] - dc_prev) as i16) < 12,
            tables_wf(*dc, *ac),
    {
        let (k, v) = pairs[i];
        let (s, amp_v) = calculate_size_and_amp(v);
        proof {
            lemma_symbol(k, s);
        }
        let symbol = (k << 4 | s) as usize;
        if check_ac && ac.sizes[symbol] == 0 {
            proof {
                assert(!block_codable(zz@, dc_prev, *ac, check_ac));
            }
            return Err(EncodeError::MissingAcCode);
        }
        let ghost st = bw.stream();
        bw.write_bits(ac.codes[symbol], ac.sizes[symbol] as usize);
        bw.write_bits(amp_v, s as usize);
        proof {
            assert(bw.stream() =~= st + pair_bits(ps[i as int], *ac));
        }
        proof {
            assert(ps.take(i + 1).drop_last() =~= ps.take(i as int));
            assert(ps.take(i + 1).last() == ps[i as int]);
            assert(bw.stream() =~= s1 + ac_bits(ps.take(i + 1), *ac));
        }
    }
    proof {
        assert(ps.take(n as int) =~= ps);
        assert(bw.stream() =~= s0 + block_bits(zz@, dc_prev, *dc, *ac));
    }
    Ok(())
}


/// Natural index of the `k`-th coefficient in zigzag order.
pub open spec fn zz_index(k: int) -> int {
    JPEG_ZIGZAG_LUT[k] as int
}

/// The coefficients of `blk` divided by `table`, in zigzag order.
pub open spec fn zigzag_quantized(blk: BlockI16, table: BlockI16) -> Seq<i16> {
    Seq::new(
        64,
        |k: int|
            div_trunc(
                blk[zz_index(k) / 8][zz_index(k) % 8] as int,
                table[zz_index(k) / 8][zz_index(k) % 8] as int,
            ) as i16,
    )
}

/// A quantisation table as the bytes of a DQT segment, in zigzag order.
pub open spec fn table_bytes(table: BlockI16) -> Seq<u8> {
    Seq::new(64, |k: int| table[zz_index(k) / 8][zz_index(k) % 8] as u8)
}

pub open spec fn luma_dc() -> DcHuffmanTable {
    DcHuffmanTable { codes: Y_DC_CODES, sizes: Y_DC_SIZES }
}

pub open spec fn luma_ac() -> AcHuffmanTable {
    AcHuffmanTable { codes: Y_AC_CODES, sizes: Y_AC_SIZES }
}

pub open spec fn chroma_dc() -> DcHuffmanTable {
    DcHuffmanTable { codes: C_DC_CODES, sizes: C_DC_SIZES }
}

pub open spec fn chroma_ac() -> AcHuffmanTable {
    AcHuffmanTable { codes: C_AC_CODES, sizes: C_AC_SIZES }
}

/// The DCT output of one 8x8 tile of each plane: (Y, Cb, Cr).
pub type McuCoefficients = (BlockI16, BlockI16, BlockI16);

/// The bits of one MCU, the Y, Cb and Cr blocks in turn, each quantised,
/// read in zigzag order and coded against its DC predictor in `p`.
pub open spec fn mcu_bits(c: McuCoefficients, p: (i16, i16, i16)) -> Seq<bool> {
    block_bits(zigzag_quantized(c.0, QY), p.0, luma_dc(), luma_ac()) + block_bits(
        zigzag_quantized(c.1, QC),
        p.1,
        chroma_dc(),
        chroma_ac(),
    ) + block_bits(zigzag_quantized(c.2, QC), p.2, chroma_dc(), chroma_ac())
}

/// Every block of the MCU can be coded; AC codes are checked for Cb only.
pub open spec fn mcu_codable(c: McuCoefficients, p: (i16, i16, i16)) -> bool {
    &&& block_codable(zigzag_quantized(c.0, QY), p.0, luma_ac(), false)
    &&& block_codable(zigzag_quantized(c.1, QC), p.1, chroma_ac(), true)
    &&& block_codable(zigzag_quantized(c.2, QC), p.2, chroma_ac(), false)
}

/// The error that coding an MCU that cannot be coded gives: that of its
/// first block, in the order Y, Cb, Cr, that cannot be coded.
pub open spec fn mcu_error(c: McuCoefficients, p: (i16, i16, i16)) -> EncodeError {
    let y = zigzag_quantized(c.0, QY);
    let cb = zigzag_quantized(c.1, QC);
    let cr = zigzag_quantized(c.2, QC);
    if !block_codable(y, p.0, luma_ac(), false) {
        block_error(y, p.0)
    } else if !block_codable(cb, p.1, chroma_ac(), true) {
        block_error(cb, p.1)
    } else {
        block_error(cr, p.2)
    }
}

/// The quantised DC coefficients of an MCU, which predict the next one.
pub open spec fn mcu_dc(c: McuCoefficients) -> (i16, i16, i16) {
    (zigzag_quantized(c.0, QY)[0], zigzag_quantized(c.1, QC)[0], zigzag_quantized(c.2, QC)[0])
}

/// The scan of a sequence of tiles, given the DCT output of each: the
/// entropy-coded bits, the final DC predictors of Y, Cb and Cr, and whether
/// every block could be coded.
pub open spec fn scan(m: Seq<McuCoefficients>) -> (Seq<bool>, (i16, i16, i16), bool)
    decreases m.len(),
{
    if m.len() == 0 {
        (Seq::empty(), (0i16, 0i16, 0i16), true)
    } else {
        let prev = scan(m.drop_last());
        (
            prev.0 + mcu_bits(m.last(), prev.1),
            mcu_dc(m.last()),
            prev.2 && mcu_codable(m.last(), prev.1),
        )
    }
}

/// The headers of a baseline file of the given size.
pub open spec fn jpeg_headers(width: u16, height: u16) -> Seq<u8> {
    soi_bytes() + app0_bytes() + dqt_bytes(table_bytes(QY), table_bytes(QC)) + sof0_bytes(
        width,
        height,
    ) + dht_bytes() + sos_bytes()
}

/// A complete file: headers, the stuffed scan padded with one-bits, end of
/// image.
pub open spec fn jpeg_file(width: u16, height: u16, m: Seq<McuCoefficients>) -> Seq<u8> {
    jpeg_headers(width, height) + encoded(pad(scan(m).0)) + eoi_bytes()
}


/// An encoded file is its headers, then a marker-free entropy-coded segment
/// from which the bits of the scan read back (padded with one-bits to a byte
/// boundary), then the end-of-image marker.  (That the Huffman codes of the
/// scan are the ones the DHT segment describes is `lemma_luma_dc_canonical`
/// and its siblings in `huffman`.)
pub proof fn lemma_jpeg_file_layout(width: u16, height: u16, m: Seq<McuCoefficients>)
    ensures
        ({
            let data = encoded(pad(scan(m).0));
            &&& jpeg_file(width, height, m) == jpeg_headers(width, height) + data + eoi_bytes()
            &&& marker_free(data)
            &&& unpack(unstuff(data)) == pad(scan(m).0)
            &&& jpeg_file(width, height, m).subrange(0, 2) == soi_bytes()
            &&& jpeg_file(width, height, m).subrange(
                jpeg_file(width, height, m).len() - 2,
                jpeg_file(width, height, m).len() as int,
            ) == eoi_bytes()
        }),
{
    lemma_output_reads_back(scan(m).0);
    let f = jpeg_file(width, height, m);
    assert(f.subrange(0, 2) =~= soi_bytes());
    assert(f.subrange(f.len() - 2, f.len() as int) =~= eoi_bytes());
}

proof fn lemma_standard_tables()
    ensures
        tables_wf(luma_dc(), luma_ac()),
        tables_wf(chroma_dc(), chroma_ac()),
        forall|i: int, j: int| 0 <= i < 8 && 0 <= j < 8 ==> 10 <= #[trigger] QY[i][j] <= 255,
        forall|i: int, j: int| 0 <= i < 8 && 0 <= j < 8 ==> 10 <= #[trigger] QC[i][j] <= 255,
{
    assert(tables_wf(luma_dc(), luma_ac()));
    assert(tables_wf(chroma_dc(), chroma_ac()));
}

/// Dividing by at least 10 keeps an `i16` within 3276 of zero.
proof fn lemma_quantized_bound(a: int, b: int)
    requires
        i16::MIN <= a <= i16::MAX,
        10 <= b,
    ensures
        -3276 <= div_trunc(a, b) <= 3276,
{
    if a >= 0 {
        assert(0 <= a / b <= a / 10) by (nonlinear_arith)
            requires
                0 <= a,
                10 <= b,
        ;
    } else {
        assert(0 <= (-a) / b <= (-a) / 10) by (nonlinear_arith)
            requires
                0 < -a,
                10 <= b,
        ;
    }
}


/// The block handed to the transform for a tile holds the image as it
/// lies: its entry at row `r`, column `c` is the sample at image row
/// `y0 + r`, column `x0 + c`, in a plane stored row after row.
pub proof fn lemma_tile_rows(blk: BlockU8, plane: Seq<u8>, width: int, x0: int, y0: int)
    requires
        is_tile(blk, plane, width, x0, y0),
    ensures
        forall|r: int, c: int|
            0 <= r < 8 && 0 <= c < 8 ==> #[trigger] blk[r][c] == plane[(y0 + r) * width + x0 + c],
{
    assert forall|r: int, c: int| 0 <= r < 8 && 0 <= c < 8 implies #[trigger] blk[r][c] == plane[(y0
        + r) * width + x0 + c] by {
        assert(blk[r][c] == tile_sample(plane, width, x0, y0, r, c));
    }
}

/// Reads the 8x8 tile at (`x0`, `y0`) of a plane of width `width`.
pub open spec fn tile_sample(plane: Seq<u8>, width: int, x0: int, y0: int, r: int, c: int) -> u8 {
    plane[(y0 + r) * width + x0 + c]
}

proof fn lemma_tile_index(width: int, height: int, x0: int, y0: int, r: int, c: int)
    requires
        0 <= x0,
        0 <= y0,
        0 <= r < 8,
        0 <= c < 8,
        x0 + 8 <= width,
        y0 + 8 <= height,
    ensures
        0 <= (y0 + r) * width + x0 + c < width * height,
        (y0 + r) * width <= (y0 + r) * width + x0 + c,
{
    assert((y0 + r) * width + x0 + c < width * height) by (nonlinear_arith)
        requires
            0 <= x0,
            0 <= y0,
            0 <= r < 8,
            0 <= c < 8,
            x0 + 8 <= width,
            y0 + 8 <= height,
    ;
    assert(0 <= (y0 + r) * width) by (nonlinear_arith)
        requires
            0 <= y0,
            0 <= r,
            0 <= width,
    ;
}

/// Each quantisation table entry as a byte.
fn to_table_bytes(zz: &[i16; 64]) -> (r: [u8; 64])
    ensures
        forall|k: int| 0 <= k < 64 ==> #[trigger] r[k] == zz[k] as u8,
{
    let mut r = [0u8; 64];
    for k in 0..64
        invariant
            forall|j: int| 0 <= j < k ==> #[trigger] r[j] == zz[j] as u8,
    {
        r[k] = zz[k] as u8;
    }
    r
}

/// Writes the segments that precede the scan.
fn write_headers(buf: &mut Vec<u8>, width: u16, height: u16)
    ensures
        final(buf)@ == old(buf)@ + jpeg_headers(width, height),
{
    write_soi(buf);
    write_app0(buf);

    let qy_zigzag = to_table_bytes(&zigzag_scan(&QY));
    let qc_zigzag = to_table_bytes(&zigzag_scan(&QC));
    proof {
        assert(qy_zigzag@ =~= table_bytes(QY));
        assert(qc_zigzag@ =~= table_bytes(QC));
    }
    write_dqt(buf, &qy_zigzag, &qc_zigzag);
    write_sof0(buf, width, height);
    write_dht(buf);
    write_sos(buf);
    proof {
        assert(buf@ =~= old(buf)@ + jpeg_headers(width, height));
    }
}

/// Encodes RGB-derived YCbCr images as baseline JPEG, one 8x8 tile of each
/// plane at a time, with the DCT supplied by the caller.
pub struct JpegEncoder<D> where D: Dct {
    dct: D,
    y_blk: BlockU8,
    cb_blk: BlockU8,
    cr_blk: BlockU8,
    y_dc_prev: i16,
    cb_dc_prev: i16,
    cr_dc_prev: i16,
}

impl<D> JpegEncoder<D> where D: Dct {
    /// The transform the encoder applies to each tile.
    pub closed spec fn transform(&self) -> D {
        self.dct
    }

    /// The buffers that hold the current tile of Y, Cb and Cr.
    pub closed spec fn blocks(&self) -> (BlockU8, BlockU8, BlockU8) {
        (self.y_blk, self.cb_blk, self.cr_blk)
    }

    /// The DC predictors of Y, Cb and Cr after the last encoded tile.
    pub closed spec fn dc_predictors(&self) -> (i16, i16, i16) {
        (self.y_dc_prev, self.cb_dc_prev, self.cr_dc_prev)
    }

    pub fn new(dct: D) -> (e: Self)
        ensures
            e.transform() == dct,
            e.dc_predictors() == (0i16, 0i16, 0i16),
            forall|i: int, j: int|
                0 <= i < 8 && 0 <= j < 8 ==> {
                    &&& #[trigger] e.blocks().0[i][j] == 0
                    &&& e.blocks().1[i][j] == 0
                    &&& e.blocks().2[i][j] == 0
                },
    {
        Self {
            dct,
            y_blk: [[0;8];8],
            cb_blk: [[0;8];8],
            cr_blk: [[0;8];8],
            y_dc_prev: 0,
            cb_dc_prev: 0,
            cr_dc_prev: 0,
        }
    }

    /// The DC predictors are quantised DC coefficients of the standard tables,
    /// so they stay within 3276 of zero.
    pub open spec fn predictors_bounded(&self) -> bool {
        &&& -3276 <= self.dc_predictors().0 <= 3276
        &&& -3276 <= self.dc_predictors().1 <= 3276
        &&& -3276 <= self.dc_predictors().2 <= 3276
    }

    /// Quantises, reorders and entropy codes the DCT output of one tile of
    /// each plane, and moves the DC predictors on.  `tables` are the
    /// luminance DC and AC tables, then the chrominance ones.
    #[verifier::rlimit(40)]
    pub fn encode_mcu(
        &mut self,
        bw: &mut BitWriter,
        y: BlockI16,
        cb: BlockI16,
        cr: BlockI16,
        tables: &(DcHuffmanTable, AcHuffmanTable, DcHuffmanTable, AcHuffmanTable),
    ) -> (r: Result<(), EncodeError>)
        requires
            old(bw).wf(),
            old(bw).written_count() <= old(bw).buffered().len(),
            old(self).predictors_bounded(),
            *tables == (luma_dc(), luma_ac(), chroma_dc(), chroma_ac()),
        ensures
            final(bw).wf(),
            final(bw).prefix() == old(bw).prefix(),
            final(bw).written_count() == old(bw).written_count() + (final(bw).buffered().len()
                - old(bw).buffered().len()),
            final(self).transform() == old(self).transform(),
            final(self).blocks() == old(self).blocks(),
            r is Ok <==> mcu_codable((y, cb, cr), old(self).dc_predictors()),
            r is Ok ==> final(bw).stream() == old(bw).stream() + mcu_bits(
                (y, cb, cr),
                old(self).dc_predictors(),
            ),
            r is Ok ==> final(self).dc_predictors() == mcu_dc((y, cb, cr)),
            r is Ok ==> final(self).predictors_bounded(),
            r matches Err(e) ==> e == mcu_error((y, cb, cr), old(self).dc_predictors()),
    {
        proof {
            lemma_standard_tables();
        }
        let ghost p = self.dc_predictors();
        let mut y = y;
        let mut cr = cr;
        let mut cb = cb;
        let ghost (y0, cb0, cr0) = (y, cb, cr);
        quant_mut(&mut y, &QY);
        quant_mut(&mut cr, &QC);
        quant_mut(&mut cb, &QC);

        let y_zig = zigzag_scan(&y);
        let cr_zig = zigzag_scan(&cr);
        let cb_zig = zigzag_scan(&cb);
        proof {
            lemma_zigzag_quantized(y_zig, y, y0, QY);
            lemma_zigzag_quantized(cb_zig, cb, cb0, QC);
            lemma_zigzag_quantized(cr_zig, cr, cr0, QC);
        }
        let ghost s0 = bw.stream();

        // Y panel
        match encode_block(bw, &y_zig, self.y_dc_prev, &tables.0, &tables.1, false) {
            Ok(()) => {},
            Err(e) => {
                return Err(e);
            },
        }
        self.y_dc_prev = y[0][0];
        // Cb panel
        match encode_block(bw, &cb_zig, self.cb_dc_prev, &tables.2, &tables.3, true) {
            Ok(()) => {},
            Err(e) => {
                return Err(e);
            },
        }
        self.cb_dc_prev = cb[0][0];
        // Cr panel
        match encode_block(bw, &cr_zig, self.cr_dc_prev, &tables.2, &tables.3, false) {
            Ok(()) => {},
            Err(e) => {
                return Err(e);
            },
        }
        self.cr_dc_prev = cr[0][0];
        proof {
            assert(bw.stream() =~= s0 + mcu_bits((y0, cb0, cr0), p));
        }
        Ok(())
    }

    /// Encodes an image as a baseline JPEG file: headers, then each 8x8 tile
    /// of each plane in raster order, then the end-of-image marker.  The DC
    /// predictors restart from zero.
    #[verifier::rlimit(40)]
    pub fn encode(&mut self, img: &YCbCrImage) -> (r: Result<Vec<u8>, EncodeError>)
        requires
            img.wf(),
            img.width % 8 == 0,
            img.height % 8 == 0,
        ensures
            final(self).transform() == old(self).transform(),
            r matches Ok(out) ==> exists|m: Seq<McuCoefficients>|
                {
                    &&& #[trigger] encodes_as(old(self).transform(), *img, m)
                    &&& out@ == jpeg_file(img.width as u16, img.height as u16, m)
                    &&& final(self).dc_predictors() == scan(m).1
                },
            r matches Err(e) ==> exists|m: Seq<McuCoefficients>|
                {
                    &&& #[trigger] fails_on(old(self).transform(), *img, m)
                    &&& e == mcu_error(m.last(), scan(m.drop_last()).1)
                },
    {
        self.y_dc_prev = 0;
        self.cb_dc_prev = 0;
        self.cr_dc_prev = 0;

        let mut buf = Vec::new();
        write_headers(&mut buf, img.width as u16, img.height as u16);
        proof {
            assert(buf@ =~= jpeg_headers(img.width as u16, img.height as u16));
        }

        let tables = (
            DcHuffmanTable::luminance(),
            AcHuffmanTable::luminance(),
            DcHuffmanTable::chrominance(),
            AcHuffmanTable::chrominance(),
        );
        let mut bw = BitWriter::new(buf);
        let ghost headers = jpeg_headers(img.width as u16, img.height as u16);
        let ghost mut mcus: Seq<McuCoefficients> = Seq::empty();
        let bw_count = img.width / 8;
        let bh_count = img.height / 8;
        proof {
            assert(0 * bw_count == 0);
        }
        for by in 0..bh_count
            invariant
                img.wf(),
                img.width % 8 == 0,
                img.height % 8 == 0,
                bw_count == img.width / 8,
                bh_count == img.height / 8,
                tables == (luma_dc(), luma_ac(), chroma_dc(), chroma_ac()),
                bw.wf(),
                bw.prefix() == headers,
                bw.written_count() + headers.len() == bw.buffered().len(),
                self.dct == old(self).dct,
                self.predictors_bounded(),
                mcus.len() == by * bw_count,
                scan(mcus).2,
                bw.stream() == scan(mcus).0,
                self.dc_predictors() == scan(mcus).1,
                mcus_of_image(old(self).dct, *img, mcus),
        {
            for bx in 0..bw_count
                invariant
                    img.wf(),
                    img.width % 8 == 0,
                    img.height % 8 == 0,
                    bw_count == img.width / 8,
                    bh_count == img.height / 8,
                    by < bh_count,
                    tables == (luma_dc(), luma_ac(), chroma_dc(), chroma_ac()),
                    bw.wf(),
                    bw.prefix() == headers,
                    bw.written_count() + headers.len() == bw.buffered().len(),
                    self.dct == old(self).dct,
                    self.predictors_bounded(),
                    mcus.len() == by * bw_count + bx,
                    scan(mcus).2,
                    bw.stream() == scan(mcus).0,
                    self.dc_predictors() == scan(mcus).1,
                    mcus_of_image(old(self).dct, *img, mcus),
            {
                let blk_y = by * 8;
                let blk_x = bx * 8;
                self.load_blocks(img, blk_x, blk_y);

                // now we get 3 channel block
                let y = self.dct.forward_dct(&self.y_blk);
                let cr = self.dct.forward_dct(&self.cr_blk);
                let cb = self.dct.forward_dct(&self.cb_blk);
                let ghost before = mcus;
                proof {
                    mcus = mcus.push((y, cb, cr));
                    assert(mcus.drop_last() =~= before);
                    lemma_tile_position(by as int, bx as int, bw_count as int);
                    assert(is_tile(self.y_blk, img.y@, img.width as int, blk_x as int, blk_y as int));
                    assert(is_tile(self.cb_blk, img.cb@, img.width as int, blk_x as int, blk_y as int));
                    assert(is_tile(self.cr_blk, img.cr@, img.width as int, blk_x as int, blk_y as int));
                    assert(mcu_of_tile(old(self).dct, *img, before.len() as int, (y, cb, cr)));
                    assert forall|i: int| 0 <= i < mcus.len() implies #[trigger] mcu_of_tile(
                        old(self).dct,
                        *img,
                        i,
                        mcus[i],
                    ) by {
                        if i < before.len() {
                            assert(mcus[i] == before[i]);
                        }
                    }
                }
                match self.encode_mcu(&mut bw, y, cb, cr, &tables) {
                    Ok(()) => {},
                    Err(e) => {
                        proof {
                            lemma_tile_count(by as int, bx as int, bw_count as int, bh_count as int);
                            assert(mcus.last() == (y, cb, cr));
                            assert(fails_on(old(self).transform(), *img, mcus));
                            assert(e == mcu_error(mcus.last(), scan(mcus.drop_last()).1));
                        }
                        return Err(e);
                    },
                }
            }
            proof {
                assert(mcus.len() == (by + 1) * bw_count) by (nonlinear_arith)
                    requires
                        mcus.len() == by * bw_count + bw_count,
                ;
            }
        }
        let mut buf = bw.finish();
        write_eoi(&mut buf);
        proof {
            assert(mcus.len() == (img.width / 8) * (img.height / 8)) by (nonlinear_arith)
                requires
                    mcus.len() == bh_count * bw_count,
                    bw_count == img.width / 8,
                    bh_count == img.height / 8,
            ;
            assert(buf@ =~= jpeg_file(img.width as u16, img.height as u16, mcus));
            assert(encodes_as(old(self).transform(), *img, mcus));
        }
        Ok(buf)
    }

    /// Copies the tile at (`blk_x`, `blk_y`) of each plane into the block
    /// buffers.
    fn load_blocks(&mut self, img: &YCbCrImage, blk_x: usize, blk_y: usize)
        requires
            img.wf(),
            blk_x + 8 <= img.width,
            blk_y + 8 <= img.height,
        ensures
            final(self).dct == old(self).dct,
            final(self).dc_predictors() == old(self).dc_predictors(),
            is_tile(final(self).y_blk, img.y@, img.width as int, blk_x as int, blk_y as int),
            is_tile(final(self).cb_blk, img.cb@, img.width as int, blk_x as int, blk_y as int),
            is_tile(final(self).cr_blk, img.cr@, img.width as int, blk_x as int, blk_y as int),
    {
        self.y_blk = load_tile(&img.y, img.width, img.height, blk_x, blk_y);
        self.cb_blk = load_tile(&img.cb, img.width, img.height, blk_x, blk_y);
        self.cr_blk = load_tile(&img.cr, img.width, img.height, blk_x, blk_y);
    }
}

/// The tile after `by` rows of `w` tiles and `bx` more is at column `bx`
/// and row `by`.
proof fn lemma_tile_position(by: int, bx: int, w: int)
    requires
        0 <= by,
        0 <= bx < w,
    ensures
        (by * w + bx) % w == bx,
        (by * w + bx) / w == by,
{
    vstd::arithmetic::div_mod::lemma_fundamental_div_mod_converse(by * w + bx, w, by, bx);
}

proof fn lemma_tile_count(by: int, bx: int, w: int, h: int)
    requires
        0 <= by < h,
        0 <= bx < w,
    ensures
        by * w + bx + 1 <= w * h,
{
    assert((by + 1) * w <= h * w) by (nonlinear_arith)
        requires
            by + 1 <= h,
            0 <= w,
    ;
    assert((by + 1) * w == by * w + w) by (nonlinear_arith);
    assert(h * w == w * h) by (nonlinear_arith);
}

/// Reading a quantised block in zigzag order gives `zigzag_quantized`, and
/// its entries stay within 3276 of zero.
proof fn lemma_zigzag_quantized(zig: [i16; 64], q: BlockI16, raw: BlockI16, table: BlockI16)
    requires
        forall|k: int|
            0 <= k < 64 ==> #[trigger] zig[k] == q[(JPEG_ZIGZAG_LUT[k] / 8) as int][(JPEG_ZIGZAG_LUT[k]
                % 8) as int],
        crate::quant::is_quantized(q, raw, table),
        forall|i: int, j: int| 0 <= i < 8 && 0 <= j < 8 ==> 10 <= #[trigger] table[i][j] <= 255,
    ensures
        zig@ == zigzag_quantized(raw, table),
        forall|k: int| 0 <= k < 64 ==> -3276 <= #[trigger] zig[k] <= 3276,
        zig[0] == q[0][0],
{
    assert forall|k: int| 0 <= k < 64 implies #[trigger] zig@[k] == zigzag_quantized(raw, table)[k]
        && -3276 <= zig[k] <= 3276 by {
        let i = zz_index(k) / 8;
        let j = zz_index(k) % 8;
        assert(0 <= i < 8 && 0 <= j < 8);
        lemma_quantized_bound(raw[i][j] as int, table[i][j] as int);
        assert(q[i][j] == div_trunc(raw[i][j] as int, table[i][j] as int));
    }
    assert(zig@ =~= zigzag_quantized(raw, table));
}

/// `out` is a value that the transform may return for the 8x8 tile at
/// (`x0`, `y0`) of a plane of width `width`.
pub open spec fn transforms_tile<D: Dct>(
    dct: D,
    plane: Seq<u8>,
    width: int,
    x0: int,
    y0: int,
    out: BlockI16,
) -> bool {
    exists|blk: BlockU8|
        #[trigger] is_tile(blk, plane, width, x0, y0) && call_ensures(D::forward_dct, (&dct, &blk), out)
}

/// `c` holds what the transform returned for the `i`-th tile, in raster
/// order, of the Y, Cb and Cr planes.
pub open spec fn mcu_of_tile<D: Dct>(dct: D, img: YCbCrImage, i: int, c: McuCoefficients) -> bool {
    let w = img.width as int;
    let x0 = (i % (w / 8)) * 8;
    let y0 = (i / (w / 8)) * 8;
    &&& transforms_tile(dct, img.y@, w, x0, y0, c.0)
    &&& transforms_tile(dct, img.cb@, w, x0, y0, c.1)
    &&& transforms_tile(dct, img.cr@, w, x0, y0, c.2)
}

/// Each MCU of `m` holds what the transform returned for the tile of the
/// same index.
pub open spec fn mcus_of_image<D: Dct>(dct: D, img: YCbCrImage, m: Seq<McuCoefficients>) -> bool {
    forall|i: int| 0 <= i < m.len() ==> #[trigger] mcu_of_tile(dct, img, i, m[i])
}

/// The transform is a function: it returns one output for each block.
pub open spec fn transform_is_function<D: Dct>(dct: D) -> bool {
    forall|blk: BlockU8, a: BlockI16, b: BlockI16|
        #[trigger] call_ensures(D::forward_dct, (&dct, &blk), a) && #[trigger] call_ensures(
            D::forward_dct,
            (&dct, &blk),
            b,
        ) ==> a == b
}

/// The 8x8 tile at (`x0`, `y0`) of a plane is one block.
proof fn lemma_tile_unique(b1: BlockU8, b2: BlockU8, plane: Seq<u8>, width: int, x0: int, y0: int)
    requires
        is_tile(b1, plane, width, x0, y0),
        is_tile(b2, plane, width, x0, y0),
    ensures
        b1 == b2,
{
    assert forall|r: int| 0 <= r < 8 implies b1[r] == b2[r] by {
        assert forall|c: int| 0 <= c < 8 implies b1[r][c] == b2[r][c] by {
            assert(b1[r][c] == tile_sample(plane, width, x0, y0, r, c));
            assert(b2[r][c] == tile_sample(plane, width, x0, y0, r, c));
        }
        assert(b1[r] =~= b2[r]);
    }
    assert(b1 =~= b2);
}

proof fn lemma_transform_unique<D: Dct>(
    dct: D,
    plane: Seq<u8>,
    width: int,
    x0: int,
    y0: int,
    a: BlockI16,
    b: BlockI16,
)
    requires
        transform_is_function(dct),
        transforms_tile(dct, plane, width, x0, y0, a),
        transforms_tile(dct, plane, width, x0, y0, b),
    ensures
        a == b,
{
    let b1 = choose|blk: BlockU8|
        #[trigger] is_tile(blk, plane, width, x0, y0) && call_ensures(D::forward_dct, (&dct, &blk), a);
    let b2 = choose|blk: BlockU8|
        #[trigger] is_tile(blk, plane, width, x0, y0) && call_ensures(D::forward_dct, (&dct, &blk), b);
    lemma_tile_unique(b1, b2, plane, width, x0, y0);
}

/// Dropping the last MCU keeps a scan codable.
proof fn lemma_scan_drop_last_codable(m: Seq<McuCoefficients>)
    requires
        m.len() > 0,
        scan(m).2,
    ensures
        scan(m.drop_last()).2,
{
}

/// A prefix of a sequence of MCUs that can all be coded can be coded.
proof fn lemma_scan_prefix_codable(m: Seq<McuCoefficients>, k: int)
    requires
        0 <= k <= m.len(),
        scan(m).2,
    ensures
        scan(m.take(k)).2,
    decreases m.len(),
{
    if k < m.len() {
        lemma_scan_drop_last_codable(m);
        lemma_scan_prefix_codable(m.drop_last(), k);
        assert(m.drop_last().take(k) =~= m.take(k));
    } else {
        assert(m.take(k) =~= m);
    }
}

/// The MCUs of one image under a transform that is a function agree tile
/// by tile.
proof fn lemma_mcus_agree<D: Dct>(
    dct: D,
    img: YCbCrImage,
    m1: Seq<McuCoefficients>,
    m2: Seq<McuCoefficients>,
    i: int,
)
    requires
        transform_is_function(dct),
        mcus_of_image(dct, img, m1),
        mcus_of_image(dct, img, m2),
        0 <= i < m1.len(),
        i < m2.len(),
    ensures
        m1[i] == m2[i],
{
    assert(mcu_of_tile(dct, img, i, m1[i]));
    assert(mcu_of_tile(dct, img, i, m2[i]));
    let w = img.width as int;
    let x0 = (i % (w / 8)) * 8;
    let y0 = (i / (w / 8)) * 8;
    lemma_transform_unique(dct, img.y@, w, x0, y0, m1[i].0, m2[i].0);
    lemma_transform_unique(dct, img.cb@, w, x0, y0, m1[i].1, m2[i].1);
    lemma_transform_unique(dct, img.cr@, w, x0, y0, m1[i].2, m2[i].2);
}

/// What `encode` codes when it succeeds on `img`: the transform's output
/// for every tile, all of which can be coded.
pub open spec fn encodes_as<D: Dct>(dct: D, img: YCbCrImage, m: Seq<McuCoefficients>) -> bool {
    &&& m.len() == (img.width / 8) * (img.height / 8)
    &&& scan(m).2
    &&& mcus_of_image(dct, img, m)
}

/// What `encode` stops on when it fails on `img`: the transform's output for
/// the tiles up to one that cannot be coded.
pub open spec fn fails_on<D: Dct>(dct: D, img: YCbCrImage, m: Seq<McuCoefficients>) -> bool {
    &&& 0 < m.len() <= (img.width / 8) * (img.height / 8)
    &&& scan(m.drop_last()).2
    &&& !mcu_codable(m.last(), scan(m.drop_last()).1)
    &&& mcus_of_image(dct, img, m)
}

/// A sequence that stops on an MCU that cannot be coded cannot be coded.
proof fn lemma_fails_not_codable<D: Dct>(dct: D, img: YCbCrImage, m: Seq<McuCoefficients>)
    requires
        fails_on(dct, img, m),
    ensures
        !scan(m).2,
{
}

/// Two sequences of the transform's output for the tiles of one image, the
/// first of which ends on its first MCU that cannot be coded, and the
/// second at least as long and coded up to its last MCU: they are equal.
proof fn lemma_first_failure<D: Dct>(
    dct: D,
    img: YCbCrImage,
    m1: Seq<McuCoefficients>,
    m2: Seq<McuCoefficients>,
)
    requires
        transform_is_function(dct),
        fails_on(dct, img, m1),
        mcus_of_image(dct, img, m2),
        m1.len() <= m2.len(),
        m2.len() > 0,
        scan(m2.drop_last()).2,
    ensures
        m1.len() == m2.len(),
        m1 == m2,
{
    let k = m1.len() as int;
    assert forall|i: int| 0 <= i < k implies m2.take(k)[i] == m1[i] by {
        lemma_mcus_agree(dct, img, m2, m1, i);
    }
    assert(m2.take(k) =~= m1);
    if k < m2.len() {
        lemma_scan_prefix_codable(m2.drop_last(), k);
        assert(m2.drop_last().take(k) =~= m1);
        lemma_fails_not_codable(dct, img, m1);
    }
    assert(m1 =~= m2);
}

/// With a transform that is a function, the outcome of `encode` depends on
/// the image alone, not on the encoder's earlier state: two successes code
/// the same tiles (so give the same bytes and leave the same predictors),
/// two failures stop on the same tile (so return the same error), and it
/// cannot both succeed and fail on one image.
pub proof fn lemma_encode_deterministic<D: Dct>(
    dct: D,
    img: YCbCrImage,
    m1: Seq<McuCoefficients>,
    m2: Seq<McuCoefficients>,
)
    requires
        transform_is_function(dct),
    ensures
        encodes_as(dct, img, m1) && encodes_as(dct, img, m2) ==> m1 == m2,
        encodes_as(dct, img, m1) && encodes_as(dct, img, m2) ==> jpeg_file(
            img.width as u16,
            img.height as u16,
            m1,
        ) == jpeg_file(img.width as u16, img.height as u16, m2) && scan(m1).1 == scan(m2).1,
        fails_on(dct, img, m1) && fails_on(dct, img, m2) ==> m1 == m2,
        fails_on(dct, img, m1) && fails_on(dct, img, m2) ==> mcu_error(
            m1.last(),
            scan(m1.drop_last()).1,
        ) == mcu_error(m2.last(), scan(m2.drop_last()).1),
        !(encodes_as(dct, img, m1) && fails_on(dct, img, m2)),
{
    if encodes_as(dct, img, m1) && encodes_as(dct, img, m2) {
        assert forall|i: int| 0 <= i < m1.len() implies m1[i] == m2[i] by {
            lemma_mcus_agree(dct, img, m1, m2, i);
        }
        assert(m1 =~= m2);
    }
    if fails_on(dct, img, m1) && fails_on(dct, img, m2) {
        if m1.len() <= m2.len() {
            lemma_first_failure(dct, img, m1, m2);
        } else {
            lemma_first_failure(dct, img, m2, m1);
        }
    }
    if encodes_as(dct, img, m1) && fails_on(dct, img, m2) {
        let k = m2.len() as int;
        assert forall|i: int| 0 <= i < k implies m1.take(k)[i] == m2[i] by {
            lemma_mcus_agree(dct, img, m1, m2, i);
        }
        lemma_scan_prefix_codable(m1, k);
        assert(m1.take(k) =~= m2);
        lemma_fails_not_codable(dct, img, m2);
    }
}

/// `blk` is the 8x8 tile at (`x0`, `y0`) of a plane of width `width`.
pub open spec fn is_tile(blk: BlockU8, plane: Seq<u8>, width: int, x0: int, y0: int) -> bool {
    forall|r: int, c: int|
        0 <= r < 8 && 0 <= c < 8 ==> #[trigger] blk[r][c] == tile_sample(plane, width, x0, y0, r, c)
}

/// Reads the tile at (`x0`, `y0`) of a plane of `width * height` samples.
fn load_tile(plane: &Vec<u8>, width: usize, height: usize, x0: usize, y0: usize) -> (blk: BlockU8)
    requires
        plane@.len() == width * height,
        x0 + 8 <= width,
        y0 + 8 <= height,
    ensures
        is_tile(blk, plane@, width as int, x0 as int, y0 as int),
{
    let mut blk: BlockU8 = [[0;8];8];
    for r in 0..8
        invariant
            plane@.len() == width * height,
            x0 + 8 <= width,
            y0 + 8 <= height,
            forall|i: int, c: int|
                0 <= i < r && 0 <= c < 8 ==> #[trigger] blk[i][c] == tile_sample(plane@, width as int, x0 as int, y0 as int, i, c),
    {
        proof {
            lemma_tile_index(width as int, height as int, x0 as int, y0 as int, r as int, 0);
            assert(plane.len() == plane@.len());
        }
        let row_offset = (y0 + r) * width;
        let mut row = [0u8; 8];
        for c in 0..8
            invariant
                plane@.len() == width * height,
                x0 + 8 <= width,
                y0 + 8 <= height,
                0 <= r < 8,
                row_offset == (y0 + r) * width,
                forall|j: int| 0 <= j < c ==> #[trigger] row[j] == tile_sample(plane@, width as int, x0 as int, y0 as int, r as int, j),
        {
            proof {
                lemma_tile_index(width as int, height as int, x0 as int, y0 as int, r as int, c as int);
                assert(plane.len() == plane@.len());
            }
            let src_idx = row_offset + x0 + c;
            row[c] = plane[src_idx];
        }
        blk[r] = row;
    }
    blk
}

} // verus!

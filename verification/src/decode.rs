//! A model decoder for entropy-coded blocks, used to state that what the
//! encoder writes can be read back.
use crate::bitstream::{bits_of, bits_value, lemma_bits_of_injective, lemma_bits_of_take, lemma_bits_value_of};
use crate::bitstream::{encoded, lemma_output_reads_back, pad, padding, unpack, unstuff};
use crate::encoder::{
    ac_bits, ac_symbol, amp_bits, block_bits, chroma_ac, chroma_dc, luma_ac, luma_dc, mcu_bits,
    mcu_dc, pair_bits, scan, zigzag_quantized, McuCoefficients,
};
use crate::quant::{QC, QY};
use crate::huffman::{
    amplitude, codes_fit, extend, lemma_extend_amplitude, prefix_free, size_category, AcHuffmanTable,
    DcHuffmanTable,
};
use crate::rle::{lemma_leading_zeros, leading_zeros, run_pairs, zeros, AcPair, EOB, ZRL};
use vstd::arithmetic::power2::{lemma_pow2_pos, pow2};
use vstd::bits::lemma_u16_shr_is_div;
use vstd::prelude::*;

verus! {

/// `s` begins with the code of `sym`.
pub open spec fn starts_with_code(codes: Seq<u16>, sizes: Seq<u8>, sym: int, s: Seq<bool>) -> bool {
    &&& 0 <= sym < sizes.len()
    &&& sizes[sym] != 0
    &&& sizes[sym] <= s.len()
    &&& s.take(sizes[sym] as int) == bits_of(codes[sym], sizes[sym] as nat)
}

/// The symbol whose code begins `s`, if there is one.
pub open spec fn read_symbol(codes: Seq<u16>, sizes: Seq<u8>, s: Seq<bool>) -> Option<int> {
    if exists|sym: int| starts_with_code(codes, sizes, sym, s) {
        Some(choose|sym: int| starts_with_code(codes, sizes, sym, s))
    } else {
        None
    }
}

/// The coefficient that `size` amplitude bits at the start of `s` stand for.
pub open spec fn read_amplitude(s: Seq<bool>, size: nat) -> int {
    extend(bits_value(s.take(size as int)), size)
}

/// Reads the DC size category and amplitude at the start of `s`: the DC
/// coefficient predicted by `prev`, and the bits that follow.
pub open spec fn decode_dc(s: Seq<bool>, dc: DcHuffmanTable, prev: int) -> Option<(int, Seq<bool>)> {
    match read_symbol(dc.codes@, dc.sizes@, s) {
        Some(cat) => {
            let r = s.skip(dc.sizes[cat] as int);
            if cat <= r.len() {
                Some((prev + read_amplitude(r, cat as nat), r.skip(cat)))
            } else {
                None
            }
        },
        None => None,
    }
}

/// Reads `n` AC coefficients from the start of `s`: EOB ends the block with
/// zeros, ZRL stands for sixteen zeros, any other symbol for its run of zeros
/// and then a coefficient.
pub open spec fn decode_ac(s: Seq<bool>, ac: AcHuffmanTable, n: nat) -> Option<(Seq<i16>, Seq<bool>)>
    decreases n,
{
    if n == 0 {
        Some((Seq::empty(), s))
    } else {
        match read_symbol(ac.codes@, ac.sizes@, s) {
            None => None,
            Some(sym) => {
                let r = s.skip(ac.sizes[sym] as int);
                let run = sym / 16;
                let size = sym % 16;
                if sym == 0 {
                    Some((zeros(n), r))
                } else if sym == 0xF0 {
                    if n >= 16 {
                        match decode_ac(r, ac, (n - 16) as nat) {
                            Some((c, r2)) => Some((zeros(16) + c, r2)),
                            None => None,
                        }
                    } else {
                        None
                    }
                } else if 0 <= run && run + 1 <= n && size <= r.len() {
                    match decode_ac(r.skip(size), ac, (n - run - 1) as nat) {
                        Some((c, r2)) => Some(
                            (zeros(run as nat) + seq![read_amplitude(r, size as nat) as i16] + c, r2),
                        ),
                        None => None,
                    }
                } else {
                    None
                }
            },
        }
    }
}

/// Reads one block of 64 coefficients in zigzag order whose DC is predicted
/// by `prev`.
pub open spec fn decode_block(
    s: Seq<bool>,
    prev: i16,
    dc: DcHuffmanTable,
    ac: AcHuffmanTable,
) -> Option<(Seq<i16>, Seq<bool>)> {
    match decode_dc(s, dc, prev as int) {
        Some((d, r)) => match decode_ac(r, ac, 63) {
            Some((c, r2)) => Some((seq![d as i16] + c, r2)),
            None => None,
        },
        None => None,
    }
}

/// With a prefix code, the code of `sym` followed by anything reads as `sym`.
pub proof fn lemma_read_symbol(codes: Seq<u16>, sizes: Seq<u8>, sym: int, rest: Seq<bool>)
    requires
        prefix_free(codes, sizes),
        codes_fit(codes, sizes),
        codes.len() == sizes.len(),
        0 <= sym < sizes.len(),
        sizes[sym] != 0,
    ensures
        read_symbol(codes, sizes, bits_of(codes[sym], sizes[sym] as nat) + rest) == Some(sym),
{
    let s = bits_of(codes[sym], sizes[sym] as nat) + rest;
    assert(s.take(sizes[sym] as int) =~= bits_of(codes[sym], sizes[sym] as nat));
    assert(starts_with_code(codes, sizes, sym, s));
    let other = choose|x: int| starts_with_code(codes, sizes, x, s);
    lemma_unique_code(codes, sizes, sym, other, s);
}

proof fn lemma_prefix_of(codes: Seq<u16>, sizes: Seq<u8>, a: int, b: int, s: Seq<bool>)
    requires
        codes_fit(codes, sizes),
        codes.len() == sizes.len(),
        starts_with_code(codes, sizes, a, s),
        starts_with_code(codes, sizes, b, s),
        sizes[a] <= sizes[b],
    ensures
        (codes[b] as nat) / pow2((sizes[b] - sizes[a]) as nat) == codes[a] as nat,
{
    reveal(codes_fit);
    assert(sizes[a] <= 16 && codes[a] < pow2(sizes[a] as nat));
    assert(sizes[b] <= 16 && codes[b] < pow2(sizes[b] as nat));
    let la = sizes[a] as nat;
    let lb = sizes[b] as nat;
    let d = (lb - la) as nat;
    lemma_bits_of_take(codes[b], lb, la);
    assert(s.take(lb as int).take(la as int) =~= s.take(la as int));
    let q = codes[b] >> (d as u16);
    lemma_u16_shr_is_div(codes[b], d as u16);
    lemma_pow2_pos(d);
    assert(q < pow2(la)) by {
        vstd::arithmetic::power2::lemma_pow2_adds(la, d);
        vstd::arithmetic::div_mod::lemma_div_is_ordered(codes[b] as int, (pow2(la) * pow2(d)) as int - 1, pow2(d) as int);
        vstd::arithmetic::div_mod::lemma_div_by_multiple(pow2(la) as int, pow2(d) as int);
        assert(((pow2(la) * pow2(d)) as int - 1) / (pow2(d) as int) < pow2(la)) by (nonlinear_arith)
            requires
                pow2(d) > 0,
                pow2(la) > 0,
        ;
    }
    lemma_bits_of_injective(q, codes[a], la);
}

proof fn lemma_unique_code(codes: Seq<u16>, sizes: Seq<u8>, a: int, b: int, s: Seq<bool>)
    requires
        prefix_free(codes, sizes),
        codes_fit(codes, sizes),
        codes.len() == sizes.len(),
        starts_with_code(codes, sizes, a, s),
        starts_with_code(codes, sizes, b, s),
    ensures
        a == b,
{
    reveal(prefix_free);
    if sizes[a] <= sizes[b] {
        lemma_prefix_of(codes, sizes, a, b, s);
    } else {
        lemma_prefix_of(codes, sizes, b, a, s);
    }
}


/// The run-length pairs all have Huffman codes.
pub open spec fn pairs_coded(pairs: Seq<AcPair>, ac: AcHuffmanTable) -> bool {
    forall|j: int| 0 <= j < pairs.len() ==> ac.sizes[ac_symbol(#[trigger] pairs[j])] != 0
}

proof fn lemma_ac_bits_prepend(p: AcPair, ps: Seq<AcPair>, ac: AcHuffmanTable)
    ensures
        ac_bits(seq![p] + ps, ac) == pair_bits(p, ac) + ac_bits(ps, ac),
    decreases ps.len(),
{
    if ps.len() == 0 {
        assert(seq![p] + ps =~= seq![p]);
        assert(seq![p].drop_last() =~= Seq::<AcPair>::empty());
        assert(seq![p].last() == p);
        assert(ac_bits(Seq::<AcPair>::empty(), ac) =~= Seq::<bool>::empty());
        assert(ac_bits(seq![p], ac) =~= pair_bits(p, ac));
        assert(pair_bits(p, ac) + ac_bits(ps, ac) =~= pair_bits(p, ac));
    } else {
        lemma_ac_bits_prepend(p, ps.drop_last(), ac);
        assert((seq![p] + ps).drop_last() =~= seq![p] + ps.drop_last());
        assert((seq![p] + ps).last() == ps.last());
        assert(ac_bits(seq![p] + ps, ac) =~= pair_bits(p, ac) + ac_bits(ps, ac));
    }
}

/// The amplitude bits of a coefficient, followed by anything, read back as
/// the coefficient.
pub proof fn lemma_read_amplitude(v: i16, rest: Seq<bool>)
    requires
        v != i16::MIN,
    ensures
        amp_bits(v).len() == size_category(v),
        read_amplitude(amp_bits(v) + rest, size_category(v)) == v,
{
    crate::huffman::lemma_size_category_bound(v);
    lemma_extend_amplitude(v);
    assert(pow2(15) == 0x8000 && pow2(16) == 0x10000) by {
        vstd::arithmetic::power2::lemma2_to64();
    }
    if size_category(v) < 15 {
        vstd::arithmetic::power2::lemma_pow2_strictly_increases(size_category(v), 15);
    }
    assert((amplitude(v) as u16) as nat == amplitude(v));
    lemma_bits_value_of(amplitude(v) as u16, size_category(v));
    assert((amp_bits(v) + rest).take(size_category(v) as int) =~= amp_bits(v));
}

proof fn lemma_tail_coded(s: Seq<i16>, t: Seq<i16>, p: AcPair, ac: AcHuffmanTable)
    requires
        run_pairs(s) == seq![p] + run_pairs(t),
        pairs_coded(run_pairs(s), ac),
    ensures
        pairs_coded(run_pairs(t), ac),
        ac.sizes[ac_symbol(p)] != 0,
{
    assert(run_pairs(s)[0] == p);
    assert forall|j: int| 0 <= j < run_pairs(t).len() implies ac.sizes[ac_symbol(
        #[trigger] run_pairs(t)[j],
    )] != 0 by {
        assert(run_pairs(t)[j] == run_pairs(s)[j + 1]);
    }
}

proof fn lemma_decode_zrl_step(s: Seq<i16>, t: Seq<i16>, ac: AcHuffmanTable, rest: Seq<bool>)
    requires
        prefix_free(ac.codes@, ac.sizes@),
        codes_fit(ac.codes@, ac.sizes@),
        s == zeros(16) + t,
        run_pairs(s) == seq![ZRL] + run_pairs(t),
        ac.sizes[240] != 0,
        decode_ac(ac_bits(run_pairs(t), ac) + rest, ac, t.len()) == Some((t, rest)),
    ensures
        decode_ac(ac_bits(run_pairs(s), ac) + rest, ac, s.len()) == Some((s, rest)),
{
    lemma_ac_bits_prepend(ZRL, run_pairs(t), ac);
    assert(ac_symbol(ZRL) == 240);
    assert(amp_bits(0) =~= Seq::<bool>::empty());
    let code = bits_of(ac.codes[240], ac.sizes[240] as nat);
    let after = ac_bits(run_pairs(t), ac) + rest;
    assert(ac_bits(run_pairs(s), ac) + rest =~= code + after);
    lemma_read_symbol(ac.codes@, ac.sizes@, 240, after);
    assert((code + after).skip(ac.sizes[240] as int) =~= after);
}

#[verifier::rlimit(40)]
proof fn lemma_decode_value_step(
    s: Seq<i16>,
    z: nat,
    v: i16,
    t: Seq<i16>,
    ac: AcHuffmanTable,
    rest: Seq<bool>,
)
    requires
        prefix_free(ac.codes@, ac.sizes@),
        codes_fit(ac.codes@, ac.sizes@),
        z < 16,
        v != 0,
        v != i16::MIN,
        s == zeros(z) + seq![v] + t,
        run_pairs(s) == seq![(z as u8, v)] + run_pairs(t),
        ac.sizes[ac_symbol((z as u8, v))] != 0,
        decode_ac(ac_bits(run_pairs(t), ac) + rest, ac, t.len()) == Some((t, rest)),
    ensures
        decode_ac(ac_bits(run_pairs(s), ac) + rest, ac, s.len()) == Some((s, rest)),
{
    let p: AcPair = (z as u8, v);
    lemma_ac_bits_prepend(p, run_pairs(t), ac);
    let cat = size_category(v);
    crate::huffman::lemma_size_category_bound(v);
    crate::huffman::lemma_bit_length_bounds(crate::huffman::magnitude(v));
    assert(1 <= cat <= 15);
    let sym = ac_symbol(p);
    assert(sym == z * 16 + cat);
    assert(sym / 16 == z && sym % 16 == cat) by (nonlinear_arith)
        requires
            sym == z * 16 + cat,
            1 <= cat <= 15,
            0 <= z,
    ;
    assert(0 <= sym < 256);
    let code = bits_of(ac.codes[sym], ac.sizes[sym] as nat);
    let after = ac_bits(run_pairs(t), ac) + rest;
    let r = amp_bits(v) + after;
    assert(ac_bits(run_pairs(s), ac) + rest =~= code + r);
    lemma_read_symbol(ac.codes@, ac.sizes@, sym, r);
    assert((code + r).skip(ac.sizes[sym] as int) =~= r);
    lemma_read_amplitude(v, after);
    assert(r.skip(cat as int) =~= after);
}

proof fn lemma_decode_eob_step(s: Seq<i16>, ac: AcHuffmanTable, rest: Seq<bool>)
    requires
        prefix_free(ac.codes@, ac.sizes@),
        codes_fit(ac.codes@, ac.sizes@),
        0 < s.len(),
        s == zeros(s.len()),
        run_pairs(s) == seq![EOB],
        ac.sizes[0] != 0,
    ensures
        decode_ac(ac_bits(run_pairs(s), ac) + rest, ac, s.len()) == Some((s, rest)),
{
    assert(ac_symbol(EOB) == 0);
    assert(amp_bits(0) =~= Seq::<bool>::empty());
    lemma_ac_bits_prepend(EOB, Seq::empty(), ac);
    assert(seq![EOB] + Seq::<AcPair>::empty() =~= seq![EOB]);
    assert(ac_bits(Seq::<AcPair>::empty(), ac) =~= Seq::<bool>::empty());
    let code = bits_of(ac.codes[0], ac.sizes[0] as nat);
    assert(ac_bits(run_pairs(s), ac) + rest =~= code + rest);
    lemma_read_symbol(ac.codes@, ac.sizes@, 0, rest);
    assert((code + rest).skip(ac.sizes[0] as int) =~= rest);
}

/// What the AC part of a block is coded as reads back as its coefficients,
/// provided every run-length pair has a code.
pub proof fn lemma_decode_ac(s: Seq<i16>, ac: AcHuffmanTable, rest: Seq<bool>)
    requires
        prefix_free(ac.codes@, ac.sizes@),
        codes_fit(ac.codes@, ac.sizes@),
        forall|i: int| 0 <= i < s.len() ==> #[trigger] s[i] != i16::MIN,
        pairs_coded(run_pairs(s), ac),
    ensures
        decode_ac(ac_bits(run_pairs(s), ac) + rest, ac, s.len()) == Some((s, rest)),
    decreases s.len(),
{
    lemma_leading_zeros(s);
    let z = leading_zeros(s);
    if s.len() == 0 {
        assert(ac_bits(run_pairs(s), ac) =~= Seq::<bool>::empty());
        assert(Seq::<bool>::empty() + rest =~= rest);
        assert(s =~= Seq::<i16>::empty());
    } else if z >= 16 {
        let t = s.skip(16);
        assert(run_pairs(s) == seq![ZRL] + run_pairs(t));
        lemma_tail_coded(s, t, ZRL, ac);
        assert(ac_symbol(ZRL) == 240);
        lemma_decode_ac(t, ac, rest);
        assert(s =~= zeros(16) + t);
        lemma_decode_zrl_step(s, t, ac, rest);
    } else if z < s.len() {
        let v = s[z as int];
        let t = s.skip(z as int + 1);
        let p: AcPair = (z as u8, v);
        assert(run_pairs(s) == seq![p] + run_pairs(t));
        lemma_tail_coded(s, t, p, ac);
        assert forall|i: int| 0 <= i < t.len() implies #[trigger] t[i] != i16::MIN by {
            assert(t[i] == s[i + z + 1]);
        }
        lemma_decode_ac(t, ac, rest);
        assert(s =~= zeros(z) + seq![v] + t);
        lemma_decode_value_step(s, z, v, t, ac, rest);
    } else {
        assert(run_pairs(s) == seq![EOB]);
        lemma_tail_coded(s, Seq::empty(), EOB, ac);
        assert(ac_symbol(EOB) == 0);
        assert(zeros(s.len()) =~= s);
        lemma_decode_eob_step(s, ac, rest);
    }
}


/// A block can be read back with these tables: its DC size category and
/// every one of its run-length pairs has a code.
pub open spec fn block_decodable(zz: Seq<i16>, prev: i16, dc: DcHuffmanTable, ac: AcHuffmanTable) -> bool {
    &&& zz.len() == 64
    &&& i16::MIN < zz[0] - prev <= i16::MAX
    &&& forall|k: int| 1 <= k < 64 ==> #[trigger] zz[k] != i16::MIN
    &&& size_category((zz[0] - prev) as i16) < 12
    &&& dc.sizes[size_category((zz[0] - prev) as i16) as int] != 0
    &&& pairs_coded(run_pairs(zz.skip(1)), ac)
}

/// The tables form prefix codes that fit their lengths.
pub open spec fn tables_decodable(dc: DcHuffmanTable, ac: AcHuffmanTable) -> bool {
    &&& prefix_free(dc.codes@, dc.sizes@)
    &&& codes_fit(dc.codes@, dc.sizes@)
    &&& prefix_free(ac.codes@, ac.sizes@)
    &&& codes_fit(ac.codes@, ac.sizes@)
}

/// The bits the encoder writes for a block read back as the block: the DC
/// coefficient from its predicted difference and the 63 AC coefficients
/// from their run-length pairs; the bits after the block are left as they
/// are.
pub proof fn lemma_decode_block(
    zz: Seq<i16>,
    prev: i16,
    dc: DcHuffmanTable,
    ac: AcHuffmanTable,
    rest: Seq<bool>,
)
    requires
        tables_decodable(dc, ac),
        block_decodable(zz, prev, dc, ac),
    ensures
        decode_block(block_bits(zz, prev, dc, ac) + rest, prev, dc, ac) == Some((zz, rest)),
{
    let diff = (zz[0] - prev) as i16;
    let cat = size_category(diff);
    let acs = zz.skip(1);
    assert forall|i: int| 0 <= i < acs.len() implies #[trigger] acs[i] != i16::MIN by {
        assert(acs[i] == zz[i + 1]);
    }
    lemma_decode_ac(acs, ac, rest);
    let ac_part = ac_bits(run_pairs(acs), ac) + rest;
    let code = bits_of(dc.codes[cat as int], dc.sizes[cat as int] as nat);
    let r = amp_bits(diff) + ac_part;
    assert(block_bits(zz, prev, dc, ac) + rest =~= code + r);
    lemma_read_symbol(dc.codes@, dc.sizes@, cat as int, r);
    assert((code + r).skip(dc.sizes[cat as int] as int) =~= r);
    crate::huffman::lemma_size_category_bound(diff);
    lemma_read_amplitude(diff, ac_part);
    assert(r.skip(cat as int) =~= ac_part);
    assert(seq![zz[0]] + acs =~= zz);
}


/// Three quantised blocks in zigzag order: Y, Cb, Cr.
pub type McuBlocks = (Seq<i16>, Seq<i16>, Seq<i16>);

/// The quantised, zigzag-ordered blocks of an MCU's DCT output.
pub open spec fn mcu_blocks(c: McuCoefficients) -> McuBlocks {
    (zigzag_quantized(c.0, QY), zigzag_quantized(c.1, QC), zigzag_quantized(c.2, QC))
}

/// Reads the Y, Cb and Cr blocks of one MCU.
#[verifier::opaque]
pub open spec fn decode_mcu(s: Seq<bool>, p: (i16, i16, i16)) -> Option<(McuBlocks, Seq<bool>)> {
    match decode_block(s, p.0, luma_dc(), luma_ac()) {
        Some((y, r1)) => match decode_block(r1, p.1, chroma_dc(), chroma_ac()) {
            Some((cb, r2)) => match decode_block(r2, p.2, chroma_dc(), chroma_ac()) {
                Some((cr, r3)) => Some(((y, cb, cr), r3)),
                None => None,
            },
            None => None,
        },
        None => None,
    }
}

/// Reads `n` MCUs, each block's DC predicted by the block before it in the
/// same component.
pub open spec fn decode_scan(s: Seq<bool>, n: nat, p: (i16, i16, i16)) -> Option<
    (Seq<McuBlocks>, Seq<bool>),
>
    decreases n,
{
    if n == 0 {
        Some((Seq::empty(), s))
    } else {
        match decode_mcu(s, p) {
            Some((b, r)) => match decode_scan(r, (n - 1) as nat, (b.0[0], b.1[0], b.2[0])) {
                Some((bs, r2)) => Some((seq![b] + bs, r2)),
                None => None,
            },
            None => None,
        }
    }
}

/// Each block of the MCU can be read back under its predictor.
pub open spec fn mcu_decodable(c: McuCoefficients, p: (i16, i16, i16)) -> bool {
    &&& block_decodable(mcu_blocks(c).0, p.0, luma_dc(), luma_ac())
    &&& block_decodable(mcu_blocks(c).1, p.1, chroma_dc(), chroma_ac())
    &&& block_decodable(mcu_blocks(c).2, p.2, chroma_dc(), chroma_ac())
}

/// Every MCU of the sequence can be read back, starting from predictors `p`.
pub open spec fn scan_decodable(m: Seq<McuCoefficients>, p: (i16, i16, i16)) -> bool
    decreases m.len(),
{
    if m.len() == 0 {
        true
    } else {
        mcu_decodable(m[0], p) && scan_decodable(m.skip(1), mcu_dc(m[0]))
    }
}

/// The scan written from the front, starting from predictors `p`.
pub open spec fn scan_from(m: Seq<McuCoefficients>, p: (i16, i16, i16)) -> Seq<bool>
    decreases m.len(),
{
    if m.len() == 0 {
        Seq::empty()
    } else {
        mcu_bits(m[0], p) + scan_from(m.skip(1), mcu_dc(m[0]))
    }
}

/// The predictors after a sequence of MCUs.
pub open spec fn predictors_after(m: Seq<McuCoefficients>, p: (i16, i16, i16)) -> (i16, i16, i16) {
    if m.len() == 0 {
        p
    } else {
        mcu_dc(m.last())
    }
}

proof fn lemma_standard_tables_decodable()
    ensures
        tables_decodable(luma_dc(), luma_ac()),
        tables_decodable(chroma_dc(), chroma_ac()),
{
    crate::huffman::lemma_luma_dc_canonical();
    crate::huffman::lemma_luma_ac_canonical();
    crate::huffman::lemma_chroma_dc_canonical();
    crate::huffman::lemma_chroma_ac_canonical();
    crate::huffman::lemma_standard_codes_fit();
}

/// The bits of an MCU read back as its three blocks.
pub proof fn lemma_decode_mcu(c: McuCoefficients, p: (i16, i16, i16), rest: Seq<bool>)
    requires
        mcu_decodable(c, p),
    ensures
        decode_mcu(mcu_bits(c, p) + rest, p) == Some((mcu_blocks(c), rest)),
{
    reveal(decode_mcu);
    lemma_standard_tables_decodable();
    let b = mcu_blocks(c);
    let by = block_bits(b.0, p.0, luma_dc(), luma_ac());
    let bb = block_bits(b.1, p.1, chroma_dc(), chroma_ac());
    let br = block_bits(b.2, p.2, chroma_dc(), chroma_ac());
    assert(mcu_bits(c, p) + rest =~= by + (bb + (br + rest)));
    lemma_decode_block(b.0, p.0, luma_dc(), luma_ac(), bb + (br + rest));
    lemma_decode_block(b.1, p.1, chroma_dc(), chroma_ac(), br + rest);
    lemma_decode_block(b.2, p.2, chroma_dc(), chroma_ac(), rest);
}

/// The blocks of every MCU of a sequence.
pub open spec fn scan_blocks(m: Seq<McuCoefficients>) -> Seq<McuBlocks> {
    m.map_values(|c: McuCoefficients| mcu_blocks(c))
}

proof fn lemma_decode_scan_step(
    s: Seq<bool>,
    n: nat,
    p: (i16, i16, i16),
    b: McuBlocks,
    tail: Seq<bool>,
    bs: Seq<McuBlocks>,
    rest: Seq<bool>,
)
    requires
        n > 0,
        decode_mcu(s, p) == Some((b, tail)),
        decode_scan(tail, (n - 1) as nat, (b.0[0], b.1[0], b.2[0])) == Some((bs, rest)),
    ensures
        decode_scan(s, n, p) == Some((seq![b] + bs, rest)),
{
}

/// The scan of a sequence of MCUs reads back as their blocks.
pub proof fn lemma_decode_scan_from(m: Seq<McuCoefficients>, p: (i16, i16, i16), rest: Seq<bool>)
    requires
        scan_decodable(m, p),
    ensures
        decode_scan(scan_from(m, p) + rest, m.len(), p) == Some((scan_blocks(m), rest)),
    decreases m.len(),
{
    if m.len() == 0 {
        assert(Seq::<bool>::empty() + rest =~= rest);
        assert(scan_blocks(m) =~= Seq::<McuBlocks>::empty());
    } else {
        let t = m.skip(1);
        let q = mcu_dc(m[0]);
        let b = mcu_blocks(m[0]);
        lemma_decode_scan_from(t, q, rest);
        let tail = scan_from(t, q) + rest;
        let s = scan_from(m, p) + rest;
        assert(s =~= mcu_bits(m[0], p) + tail);
        lemma_decode_mcu(m[0], p, tail);
        assert(q == (b.0[0], b.1[0], b.2[0]));
        lemma_decode_scan_step(s, m.len(), p, b, tail, scan_blocks(t), rest);
        assert(scan_blocks(m) =~= seq![b] + scan_blocks(t));
    }
}

proof fn lemma_scan_from_push(m: Seq<McuCoefficients>, c: McuCoefficients, p: (i16, i16, i16))
    ensures
        scan_from(m.push(c), p) == scan_from(m, p) + mcu_bits(c, predictors_after(m, p)),
    decreases m.len(),
{
    if m.len() == 0 {
        assert(m.push(c).skip(1) =~= Seq::<McuCoefficients>::empty());
        assert(m.push(c)[0] == c);
        assert(scan_from(Seq::<McuCoefficients>::empty(), mcu_dc(c)) =~= Seq::<bool>::empty());
        assert(scan_from(m, p) =~= Seq::<bool>::empty());
        assert(scan_from(m.push(c), p) =~= scan_from(m, p) + mcu_bits(c, predictors_after(m, p)));
    } else {
        let t = m.skip(1);
        assert(m.push(c).skip(1) =~= t.push(c));
        assert(m.push(c)[0] == m[0]);
        lemma_scan_from_push(t, c, mcu_dc(m[0]));
        if t.len() > 0 {
            assert(t.last() == m.last());
        }
        assert(scan_from(m.push(c), p) =~= scan_from(m, p) + mcu_bits(c, predictors_after(m, p)));
    }
}

/// The scan, accumulated from the back, is the scan written from the front.
proof fn lemma_scan_is_scan_from(m: Seq<McuCoefficients>)
    ensures
        scan(m).0 == scan_from(m, (0i16, 0i16, 0i16)),
        scan(m).1 == predictors_after(m, (0i16, 0i16, 0i16)),
    decreases m.len(),
{
    if m.len() > 0 {
        let init = m.drop_last();
        lemma_scan_is_scan_from(init);
        lemma_scan_from_push(init, m.last(), (0i16, 0i16, 0i16));
        assert(init.push(m.last()) =~= m);
    }
}

/// The entropy-coded segment of an encoded file reads back: unstuffed and
/// unpacked, it decodes to the quantised zigzag-ordered blocks of every MCU,
/// followed by the padding bits, provided every block has codes for its
/// symbols.
pub proof fn lemma_scan_reads_back(m: Seq<McuCoefficients>)
    requires
        scan_decodable(m, (0i16, 0i16, 0i16)),
    ensures
        decode_scan(unpack(unstuff(encoded(pad(scan(m).0)))), m.len(), (0i16, 0i16, 0i16)) == Some(
            (scan_blocks(m), padding(scan(m).0)),
        ),
{
    lemma_output_reads_back(scan(m).0);
    lemma_scan_is_scan_from(m);
    lemma_decode_scan_from(m, (0i16, 0i16, 0i16), padding(scan(m).0));
}

} // verus!

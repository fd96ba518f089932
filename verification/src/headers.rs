//! The header segments of an encoded file read as a decoder reads them, and
//! the laws that they describe the scan that follows: each component's
//! sampling, its quantisation table and its Huffman tables.
use crate::bitstream::{encoded, pad};
use crate::encoder::{
    chroma_ac, chroma_dc, jpeg_file, jpeg_headers, luma_ac, luma_dc, scan, table_bytes,
    McuCoefficients,
};
use crate::huffman::{
    codes_upto, is_canonical, lemma_chroma_ac_canonical, lemma_chroma_dc_canonical,
    lemma_luma_ac_canonical, lemma_luma_dc_canonical, AcHuffmanTable, DcHuffmanTable, C_AC_BITS,
    C_AC_VALS, C_DC_BITS, C_DC_VALS, Y_AC_BITS, Y_AC_VALS, Y_DC_BITS, Y_DC_VALS,
};
use crate::markers::{
    app0_bytes, dht_bytes, dqt_bytes, eoi_bytes, soi_bytes, sof0_bytes, sos_bytes,
};
use crate::quant::{QC, QY};
use vstd::prelude::*;
use vstd::seq_lib::lemma_concat_associative;

verus! {

/// The length field of a marker segment (which counts itself but not the
/// marker).
pub open spec fn segment_length(s: Seq<u8>) -> int {
    s[2] as int * 256 + s[3] as int
}

/// The first marker segment `0xFF m` of `s`, stepping from segment to
/// segment by their length fields.
pub open spec fn find_segment(s: Seq<u8>, m: u8) -> Option<Seq<u8>>
    decreases s.len(),
{
    if s.len() < 4 || s[0] != 0xFF || segment_length(s) < 2 || s.len() < segment_length(s) + 2 {
        None
    } else if s[1] == m {
        Some(s.take(segment_length(s) + 2))
    } else {
        find_segment(s.skip(segment_length(s) + 2), m)
    }
}

/// The segment `0xFF m` of a file that starts with SOI.
pub open spec fn file_segment(file: Seq<u8>, m: u8) -> Option<Seq<u8>> {
    if file.len() >= 2 && file[0] == 0xFF && file[1] == 0xD8 {
        find_segment(file.skip(2), m)
    } else {
        None
    }
}

/// In the tables of a DQT segment (each a byte `precision << 4 | id` and 64
/// entries), the entries of table `id`.
pub open spec fn dqt_find(s: Seq<u8>, id: u8) -> Option<Seq<u8>>
    decreases s.len(),
{
    if s.len() < 65 {
        None
    } else if s[0] == id {
        Some(s.subrange(1, 65))
    } else {
        dqt_find(s.skip(65), id)
    }
}

/// The 8-bit quantisation table `id` of a DQT segment.
pub open spec fn dqt_table(seg: Seq<u8>, id: u8) -> Option<Seq<u8>> {
    if seg.len() < 4 {
        None
    } else {
        dqt_find(seg.skip(4), id)
    }
}

/// In `n` component entries of three bytes (id, sampling, table), the
/// sampling byte and table of component `cid`.
pub open spec fn component_find(s: Seq<u8>, n: nat, cid: u8) -> Option<(u8, u8)>
    decreases n,
{
    if n == 0 || s.len() < 3 {
        None
    } else if s[0] == cid {
        Some((s[1], s[2]))
    } else {
        component_find(s.skip(3), (n - 1) as nat, cid)
    }
}

/// The sampling factors and quantisation table of component `cid` in a
/// frame header.
pub open spec fn frame_component(seg: Seq<u8>, cid: u8) -> Option<(u8, u8)> {
    if seg.len() < 10 {
        None
    } else {
        component_find(seg.skip(10), seg[9] as nat, cid)
    }
}

/// The number of lines a frame header declares.
pub open spec fn frame_height(seg: Seq<u8>) -> int {
    seg[5] as int * 256 + seg[6] as int
}

/// The number of samples per line a frame header declares.
pub open spec fn frame_width(seg: Seq<u8>) -> int {
    seg[7] as int * 256 + seg[8] as int
}

/// In `n` component entries of two bytes (id, tables), the table selector
/// byte of component `cid`.
pub open spec fn selector_find(s: Seq<u8>, n: nat, cid: u8) -> Option<u8>
    decreases n,
{
    if n == 0 || s.len() < 2 {
        None
    } else if s[0] == cid {
        Some(s[1])
    } else {
        selector_find(s.skip(2), (n - 1) as nat, cid)
    }
}

/// The Huffman table selector (`dc << 4 | ac`) of component `cid` in a scan
/// header.
pub open spec fn scan_selector(seg: Seq<u8>, cid: u8) -> Option<u8> {
    if seg.len() < 5 {
        None
    } else {
        selector_find(seg.skip(5), seg[4] as nat, cid)
    }
}

/// In the tables of a DHT segment (each a byte `class << 4 | id`, 16 code
/// counts and the symbols), the counts and symbols of table `id`.
pub open spec fn dht_find(s: Seq<u8>, id: u8) -> Option<(Seq<u8>, Seq<u8>)>
    decreases s.len(),
{
    if s.len() < 17 || s.len() < 17 + codes_upto(s.subrange(1, 17), 16) {
        None
    } else if s[0] == id {
        Some((s.subrange(1, 17), s.subrange(17, 17 + codes_upto(s.subrange(1, 17), 16) as int)))
    } else {
        dht_find(s.skip(17 + codes_upto(s.subrange(1, 17), 16) as int), id)
    }
}

/// The Huffman table of class and id `id` (`class << 4 | id`) of a DHT
/// segment.
pub open spec fn dht_table(seg: Seq<u8>, id: u8) -> Option<(Seq<u8>, Seq<u8>)> {
    if seg.len() < 4 {
        None
    } else {
        dht_find(seg.skip(4), id)
    }
}

/// A DHT segment describes, as table `id`, the canonical code `codes`,
/// `sizes`.
pub open spec fn describes_code(seg: Seq<u8>, id: u8, codes: Seq<u16>, sizes: Seq<u8>) -> bool {
    match dht_table(seg, id) {
        Some((bits, vals)) => is_canonical(codes, sizes, bits, vals),
        None => false,
    }
}

/// How a decoder of `file` reads component `cid`: the frame header gives it
/// one block per MCU (sampling 1x1) and the quantisation table whose
/// entries, in zigzag order, are `q`; the scan header selects a DC and an
/// AC table that the DHT segment describes as the codes `dc` and `ac`.
pub open spec fn component_coded_with(
    file: Seq<u8>,
    cid: u8,
    q: Seq<u8>,
    dc: DcHuffmanTable,
    ac: AcHuffmanTable,
) -> bool {
    &&& file_segment(file, 0xC0) matches Some(sof)
    &&& frame_component(sof, cid) matches Some((sampling, tq))
    &&& sampling == 0x11
    &&& file_segment(file, 0xDB) matches Some(dqt)
    &&& dqt_table(dqt, tq) == Some(q)
    &&& file_segment(file, 0xDA) matches Some(sos)
    &&& scan_selector(sos, cid) matches Some(sel)
    &&& file_segment(file, 0xC4) matches Some(dht)
    &&& describes_code(dht, sel / 16, dc.codes@, dc.sizes@)
    &&& describes_code(dht, (16 + sel % 16) as u8, ac.codes@, ac.sizes@)
}

proof fn lemma_find_step(seg: Seq<u8>, rest: Seq<u8>, m: u8)
    requires
        seg.len() >= 4,
        seg[0] == 0xFF,
        segment_length(seg) == seg.len() - 2,
    ensures
        find_segment(seg + rest, m) == if seg[1] == m {
            Some(seg)
        } else {
            find_segment(rest, m)
        },
{
    let s = seg + rest;
    assert(s[0] == seg[0] && s[1] == seg[1] && s[2] == seg[2] && s[3] == seg[3]);
    assert(s.take(seg.len() as int) =~= seg);
    assert(s.skip(seg.len() as int) =~= rest);
}

proof fn lemma_dqt_step(id0: u8, t: Seq<u8>, rest: Seq<u8>, id: u8)
    requires
        t.len() == 64,
    ensures
        dqt_find(seq![id0] + t + rest, id) == if id0 == id {
            Some(t)
        } else {
            dqt_find(rest, id)
        },
{
    let s = seq![id0] + t + rest;
    assert(s[0] == id0);
    assert(s.subrange(1, 65) =~= t);
    assert(s.skip(65) =~= rest);
}

proof fn lemma_dht_step(id0: u8, bits: Seq<u8>, vals: Seq<u8>, rest: Seq<u8>, id: u8)
    requires
        bits.len() == 16,
        vals.len() == codes_upto(bits, 16),
    ensures
        dht_find(seq![id0] + bits + vals + rest, id) == if id0 == id {
            Some((bits, vals))
        } else {
            dht_find(rest, id)
        },
{
    let s = seq![id0] + bits + vals + rest;
    assert(s[0] == id0);
    assert(s.subrange(1, 17) =~= bits);
    let n = vals.len() as int;
    assert(s.subrange(17, 17 + n) =~= vals);
    assert(s.skip(17 + n) =~= rest);
}

/// The DQT segment for `qy` and `qc` holds `qy` as table 0 and `qc` as
/// table 1, and its length field counts it.
pub proof fn lemma_dqt_tables(qy: Seq<u8>, qc: Seq<u8>)
    requires
        qy.len() == 64,
        qc.len() == 64,
    ensures
        dqt_table(dqt_bytes(qy, qc), 0) == Some(qy),
        dqt_table(dqt_bytes(qy, qc), 1) == Some(qc),
        segment_length(dqt_bytes(qy, qc)) == dqt_bytes(qy, qc).len() - 2,
        dqt_bytes(qy, qc)[0] == 0xFF && dqt_bytes(qy, qc)[1] == 0xDB,
{
    let seg = dqt_bytes(qy, qc);
    let e = Seq::<u8>::empty();
    assert(seg.skip(4) =~= seq![0u8] + qy + (seq![1u8] + qc + e));
    assert(seq![1u8] + qc + e =~= seq![1u8] + qc);
    lemma_dqt_step(0, qy, seq![1u8] + qc + e, 0);
    lemma_dqt_step(0, qy, seq![1u8] + qc + e, 1);
    lemma_dqt_step(1, qc, e, 1);
    assert(seg.len() == 134);
}

proof fn lemma_split_u16(v: u16)
    by (bit_vector)
    ensures
        ((v >> 8u16) as u8) as int * 256 + ((v & 0xFF) as u8) as int == v as int,
{
}

/// The frame header for a `width` by `height` image declares 8-bit samples,
/// that size, and three components, Y (1), Cb (2) and Cr (3), each with one
/// block per MCU; Y uses quantisation table 0, Cb and Cr table 1.
pub proof fn lemma_frame_header(width: u16, height: u16)
    ensures
        sof0_bytes(width, height)[0] == 0xFF && sof0_bytes(width, height)[1] == 0xC0,
        segment_length(sof0_bytes(width, height)) == sof0_bytes(width, height).len() - 2,
        sof0_bytes(width, height)[4] == 8,
        frame_height(sof0_bytes(width, height)) == height,
        frame_width(sof0_bytes(width, height)) == width,
        sof0_bytes(width, height)[9] == 3,
        frame_component(sof0_bytes(width, height), 1) == Some((0x11u8, 0u8)),
        frame_component(sof0_bytes(width, height), 2) == Some((0x11u8, 1u8)),
        frame_component(sof0_bytes(width, height), 3) == Some((0x11u8, 1u8)),
{
    let seg = sof0_bytes(width, height);
    lemma_split_u16(width);
    lemma_split_u16(height);
    let c0 = seg.skip(10);
    assert(c0 =~= seq![0x01u8, 0x11u8, 0x00u8, 0x02u8, 0x11u8, 0x01u8, 0x03u8, 0x11u8, 0x01u8]);
    let c1 = c0.skip(3);
    assert(c1 =~= seq![0x02u8, 0x11u8, 0x01u8, 0x03u8, 0x11u8, 0x01u8]);
    let c2 = c1.skip(3);
    assert(c2 =~= seq![0x03u8, 0x11u8, 0x01u8]);
    assert(component_find(c2, 1, 3) == Some((0x11u8, 1u8)));
    assert(component_find(c1, 2, 3) == Some((0x11u8, 1u8)));
    assert(component_find(c0, 3, 3) == Some((0x11u8, 1u8)));
    assert(component_find(c1, 2, 2) == Some((0x11u8, 1u8)));
    assert(component_find(c0, 3, 2) == Some((0x11u8, 1u8)));
    assert(component_find(c0, 3, 1) == Some((0x11u8, 0u8)));
}

/// The scan header selects Huffman tables 0 (DC) and 0 (AC) for Y and
/// tables 1 and 1 for Cb and Cr.
pub proof fn lemma_scan_header()
    ensures
        sos_bytes()[0] == 0xFF && sos_bytes()[1] == 0xDA,
        segment_length(sos_bytes()) == sos_bytes().len() - 2,
        scan_selector(sos_bytes(), 1) == Some(0x00u8),
        scan_selector(sos_bytes(), 2) == Some(0x11u8),
        scan_selector(sos_bytes(), 3) == Some(0x11u8),
{
    let c0 = sos_bytes().skip(5);
    assert(c0 =~= seq![0x01u8, 0x00u8, 0x02u8, 0x11u8, 0x03u8, 0x11u8, 0x00u8, 0x3Fu8, 0x00u8]);
    let c1 = c0.skip(2);
    assert(c1 =~= seq![0x02u8, 0x11u8, 0x03u8, 0x11u8, 0x00u8, 0x3Fu8, 0x00u8]);
    let c2 = c1.skip(2);
    assert(c2 =~= seq![0x03u8, 0x11u8, 0x00u8, 0x3Fu8, 0x00u8]);
    assert(selector_find(c2, 1, 3) == Some(0x11u8));
    assert(selector_find(c1, 2, 3) == Some(0x11u8));
    assert(selector_find(c0, 3, 3) == Some(0x11u8));
    assert(selector_find(c1, 2, 2) == Some(0x11u8));
    assert(selector_find(c0, 3, 2) == Some(0x11u8));
    assert(selector_find(c0, 3, 1) == Some(0x00u8));
}

/// The DHT segment describes, as DC table 0 and AC table 0 (0x10), the codes
/// the scan uses for luminance, and as DC table 1 and AC table 1 (0x11) those
/// it uses for chrominance.
pub proof fn lemma_huffman_header()
    ensures
        dht_bytes()[0] == 0xFF && dht_bytes()[1] == 0xC4,
        segment_length(dht_bytes()) == dht_bytes().len() - 2,
        describes_code(dht_bytes(), 0x00, luma_dc().codes@, luma_dc().sizes@),
        describes_code(dht_bytes(), 0x10, luma_ac().codes@, luma_ac().sizes@),
        describes_code(dht_bytes(), 0x01, chroma_dc().codes@, chroma_dc().sizes@),
        describes_code(dht_bytes(), 0x11, chroma_ac().codes@, chroma_ac().sizes@),
{
    lemma_luma_dc_canonical();
    lemma_luma_ac_canonical();
    lemma_chroma_dc_canonical();
    lemma_chroma_ac_canonical();
    let e = Seq::<u8>::empty();
    let t3 = seq![0x11u8] + C_AC_BITS@ + C_AC_VALS@ + e;
    let t2 = seq![0x01u8] + C_DC_BITS@ + C_DC_VALS@ + t3;
    let t1 = seq![0x10u8] + Y_AC_BITS@ + Y_AC_VALS@ + t2;
    let t0 = seq![0x00u8] + Y_DC_BITS@ + Y_DC_VALS@ + t1;
    assert(dht_bytes().skip(4) =~= t0);
    assert(dht_bytes().len() == 420);
    let ids = seq![0x00u8, 0x10u8, 0x01u8, 0x11u8];
    assert forall|k: int| 0 <= k < 4 implies dht_find(t0, #[trigger] ids[k]) == if k == 0 {
        Some((Y_DC_BITS@, Y_DC_VALS@))
    } else if k == 1 {
        Some((Y_AC_BITS@, Y_AC_VALS@))
    } else if k == 2 {
        Some((C_DC_BITS@, C_DC_VALS@))
    } else {
        Some((C_AC_BITS@, C_AC_VALS@))
    } by {
        let id = ids[k];
        lemma_dht_step(0x00, Y_DC_BITS@, Y_DC_VALS@, t1, id);
        lemma_dht_step(0x10, Y_AC_BITS@, Y_AC_VALS@, t2, id);
        lemma_dht_step(0x01, C_DC_BITS@, C_DC_VALS@, t3, id);
        lemma_dht_step(0x11, C_AC_BITS@, C_AC_VALS@, e, id);
    }
    assert(ids[0] == 0x00u8 && ids[1] == 0x10u8 && ids[2] == 0x01u8 && ids[3] == 0x11u8);
}

/// The segments after SOI, found by stepping over those before.
proof fn lemma_segments_after_soi(width: u16, height: u16, rest: Seq<u8>, mk: u8)
    ensures
        find_segment(
            app0_bytes() + (dqt_bytes(table_bytes(QY), table_bytes(QC)) + (sof0_bytes(width, height)
                + (dht_bytes() + (sos_bytes() + rest)))),
            mk,
        ) == if mk == 0xDB {
            Some(dqt_bytes(table_bytes(QY), table_bytes(QC)))
        } else if mk == 0xC0 {
            Some(sof0_bytes(width, height))
        } else if mk == 0xC4 {
            Some(dht_bytes())
        } else if mk == 0xDA {
            Some(sos_bytes())
        } else if mk == 0xE0 {
            Some(app0_bytes())
        } else {
            find_segment(rest, mk)
        },
{
    let a = app0_bytes();
    let q = dqt_bytes(table_bytes(QY), table_bytes(QC));
    let f = sof0_bytes(width, height);
    let d = dht_bytes();
    let s = sos_bytes();
    lemma_dqt_tables(table_bytes(QY), table_bytes(QC));
    lemma_frame_header(width, height);
    lemma_scan_header();
    lemma_huffman_header();
    assert(a.len() == 18 && a[0] == 0xFF && a[1] == 0xE0 && segment_length(a) == 16);
    lemma_find_step(s, rest, mk);
    lemma_find_step(d, s + rest, mk);
    lemma_find_step(f, d + (s + rest), mk);
    lemma_find_step(q, f + (d + (s + rest)), mk);
    lemma_find_step(a, q + (f + (d + (s + rest))), mk);
}

/// The header segments of a file, found as a decoder finds them: the
/// segments in order from the first after SOI, up to and including SOS.
proof fn lemma_file_segments(width: u16, height: u16, body: Seq<u8>)
    ensures
        file_segment(jpeg_headers(width, height) + body, 0xDB) == Some(
            dqt_bytes(table_bytes(QY), table_bytes(QC)),
        ),
        file_segment(jpeg_headers(width, height) + body, 0xC0) == Some(sof0_bytes(width, height)),
        file_segment(jpeg_headers(width, height) + body, 0xC4) == Some(dht_bytes()),
        file_segment(jpeg_headers(width, height) + body, 0xDA) == Some(sos_bytes()),
{
    let o = soi_bytes();
    let a = app0_bytes();
    let q = dqt_bytes(table_bytes(QY), table_bytes(QC));
    let f = sof0_bytes(width, height);
    let d = dht_bytes();
    let s = sos_bytes();
    let file = jpeg_headers(width, height) + body;
    lemma_concat_associative(o + a + q + f + d, s, body);
    lemma_concat_associative(o + a + q + f, d, s + body);
    lemma_concat_associative(o + a + q, f, d + (s + body));
    lemma_concat_associative(o + a, q, f + (d + (s + body)));
    lemma_concat_associative(o, a, q + (f + (d + (s + body))));
    let x = a + (q + (f + (d + (s + body))));
    assert(file == o + x);
    assert(file.skip(2) =~= x);
    assert(file[0] == 0xFF && file[1] == 0xD8);
    lemma_segments_after_soi(width, height, body, 0xDB);
    lemma_segments_after_soi(width, height, body, 0xC0);
    lemma_segments_after_soi(width, height, body, 0xC4);
    lemma_segments_after_soi(width, height, body, 0xDA);
}

/// The headers of a file that starts with the encoder's headers describe
/// the scan that follows, as a decoder reads them.
proof fn lemma_headers_describe(width: u16, height: u16, body: Seq<u8>)
    ensures
        file_segment(jpeg_headers(width, height) + body, 0xC0) matches Some(sof) && frame_width(
            sof,
        ) == width && frame_height(sof) == height && sof[4] == 8 && sof[9] == 3,
        component_coded_with(
            jpeg_headers(width, height) + body,
            1,
            table_bytes(QY),
            luma_dc(),
            luma_ac(),
        ),
        component_coded_with(
            jpeg_headers(width, height) + body,
            2,
            table_bytes(QC),
            chroma_dc(),
            chroma_ac(),
        ),
        component_coded_with(
            jpeg_headers(width, height) + body,
            3,
            table_bytes(QC),
            chroma_dc(),
            chroma_ac(),
        ),
{
    lemma_file_segments(width, height, body);
    lemma_dqt_tables(table_bytes(QY), table_bytes(QC));
    lemma_frame_header(width, height);
    lemma_scan_header();
    lemma_huffman_header();
    assert(0x11u8 / 16 == 1 && (16 + 0x11u8 % 16) as u8 == 0x11);
    assert(0x00u8 / 16 == 0 && (16 + 0x00u8 % 16) as u8 == 0x10);
}

/// The headers of every encoded file describe the scan that follows, as a
/// decoder reads them: the frame is `width` by `height` with 8-bit samples
/// and three components; Y has one block per MCU, the quantisation table
/// that quantised it (QY, in zigzag order) and the luminance Huffman codes
/// the scan uses; Cb and Cr each have one block per MCU, QC and the
/// chrominance codes.
pub proof fn lemma_headers_describe_scan(width: u16, height: u16, m: Seq<McuCoefficients>)
    ensures
        file_segment(jpeg_file(width, height, m), 0xC0) matches Some(sof) && frame_width(sof)
            == width && frame_height(sof) == height && sof[4] == 8 && sof[9] == 3,
        component_coded_with(
            jpeg_file(width, height, m),
            1,
            table_bytes(QY),
            luma_dc(),
            luma_ac(),
        ),
        component_coded_with(
            jpeg_file(width, height, m),
            2,
            table_bytes(QC),
            chroma_dc(),
            chroma_ac(),
        ),
        component_coded_with(
            jpeg_file(width, height, m),
            3,
            table_bytes(QC),
            chroma_dc(),
            chroma_ac(),
        ),
{
    let h = jpeg_headers(width, height);
    let e = encoded(pad(scan(m).0));
    lemma_concat_associative(h, e, eoi_bytes());
    assert(jpeg_file(width, height, m) == h + (e + eoi_bytes()));
    lemma_headers_describe(width, height, e + eoi_bytes());
}

} // verus!

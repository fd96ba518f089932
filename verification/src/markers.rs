//! The marker segments around the entropy-coded data of a baseline JPEG file.
use crate::huffman::{
    C_AC_BITS, C_AC_VALS, C_DC_BITS, C_DC_VALS, Y_AC_BITS, Y_AC_VALS, Y_DC_BITS, Y_DC_VALS,
};
use vstd::prelude::*;

verus! {

/// Start of image.
pub open spec fn soi_bytes() -> Seq<u8> {
    seq![0xFFu8, 0xD8u8]
}

/// JFIF application segment: version 1.1, no density units, 1:1 aspect,
/// no thumbnail.
pub open spec fn app0_bytes() -> Seq<u8> {
    seq![
        0xFFu8, 0xE0u8, 0x00u8, 0x10u8, 0x4Au8, 0x46u8, 0x49u8, 0x46u8, 0x00u8,
        0x01u8, 0x01u8, 0x00u8, 0x00u8, 0x01u8, 0x00u8, 0x01u8, 0x00u8, 0x00u8,
    ]
}

/// Quantisation tables 0 (luminance) and 1 (chrominance), 8-bit entries in
/// zigzag order.
pub open spec fn dqt_bytes(qy: Seq<u8>, qc: Seq<u8>) -> Seq<u8> {
    seq![0xFFu8, 0xDBu8, 0x00u8, 0x84u8, 0x00u8] + qy + seq![0x01u8] + qc
}

/// Baseline frame header: 8-bit samples, three components with 1x1
/// sampling; luminance uses quantisation table 0, chrominance table 1.
pub open spec fn sof0_bytes(width: u16, height: u16) -> Seq<u8> {
    seq![
        0xFFu8, 0xC0u8, 0x00u8, 0x11u8, 0x08u8,
        (height >> 8u16) as u8, (height & 0xFF) as u8,
        (width >> 8u16) as u8, (width & 0xFF) as u8,
        0x03u8, 0x01u8, 0x11u8, 0x00u8, 0x02u8, 0x11u8, 0x01u8, 0x03u8, 0x11u8, 0x01u8,
    ]
}

/// The four Huffman tables: DC and AC for luminance (id 0) and chrominance
/// (id 1).
pub open spec fn dht_bytes() -> Seq<u8> {
    seq![0xFFu8, 0xC4u8, 0x01u8, 0xA2u8]
        + seq![0x00u8] + Y_DC_BITS@ + Y_DC_VALS@
        + seq![0x10u8] + Y_AC_BITS@ + Y_AC_VALS@
        + seq![0x01u8] + C_DC_BITS@ + C_DC_VALS@
        + seq![0x11u8] + C_AC_BITS@ + C_AC_VALS@
}

/// Start of scan: all three components, luminance with Huffman tables 0,
/// chrominance with tables 1, full spectral range.
pub open spec fn sos_bytes() -> Seq<u8> {
    seq![
        0xFFu8, 0xDAu8, 0x00u8, 0x0Cu8, 0x03u8, 0x01u8, 0x00u8, 0x02u8, 0x11u8, 0x03u8,
        0x11u8, 0x00u8, 0x3Fu8, 0x00u8,
    ]
}

/// End of image.
pub open spec fn eoi_bytes() -> Seq<u8> {
    seq![0xFFu8, 0xD9u8]
}

/// Appends `src` to `buf`.
fn put_bytes(buf: &mut Vec<u8>, src: &[u8])
    ensures
        final(buf)@ == old(buf)@ + src@,
{
    for i in 0..src.len()
        invariant
            buf@ == old(buf)@ + src@.take(i as int),
    {
        buf.push(src[i]);
        proof {
            assert(src@.take(i + 1) =~= src@.take(i as int).push(src@[i as int]));
        }
    }
    proof {
        assert(src@.take(src@.len() as int) =~= src@);
    }
}

pub fn write_soi(buf: &mut Vec<u8>)
    ensures
        final(buf)@ == old(buf)@ + soi_bytes(),
{
    buf.push(0xFF);
    buf.push(0xD8);
    proof {
        assert(buf@ =~= old(buf)@ + soi_bytes());
    }
}

pub fn write_app0(buf: &mut Vec<u8>)
    ensures
        final(buf)@ == old(buf)@ + app0_bytes(),
{
    let seg: [u8; 18] = [
        0xFF, 0xE0, 0x00, 0x10, 0x4A, 0x46, 0x49, 0x46, 0x00, 0x01, 0x01, 0x00, 0x00, 0x01, 0x00,
        0x01, 0x00, 0x00,
    ];
    put_bytes(buf, &seg);
    proof {
        assert(seg@ =~= app0_bytes());
    }
}

pub fn write_dqt(buf: &mut Vec<u8>, qy: &[u8; 64], qc: &[u8; 64])
    ensures
        final(buf)@ == old(buf)@ + dqt_bytes(qy@, qc@),
{
    let head: [u8; 5] = [0xFF, 0xDB, 0x00, 0x84, 0x00];
    put_bytes(buf, &head);
    put_bytes(buf, qy);
    buf.push(0x01);
    put_bytes(buf, qc);
    proof {
        assert(head@ =~= seq![0xFFu8, 0xDBu8, 0x00u8, 0x84u8, 0x00u8]);
        assert(buf@ =~= old(buf)@ + dqt_bytes(qy@, qc@));
    }
}

pub fn write_sof0(buf: &mut Vec<u8>, width: u16, height: u16)
    ensures
        final(buf)@ == old(buf)@ + sof0_bytes(width, height),
{
    let seg: [u8; 19] = [
        0xFF, 0xC0, 0x00, 0x11, 0x08,
        (height >> 8u16) as u8, (height & 0xFF) as u8,
        (width >> 8u16) as u8, (width & 0xFF) as u8,
        0x03, 0x01, 0x11, 0x00, 0x02, 0x11, 0x01, 0x03, 0x11, 0x01,
    ];
    put_bytes(buf, &seg);
    proof {
        assert(seg@ =~= sof0_bytes(width, height));
    }
}

pub fn write_dht(buf: &mut Vec<u8>)
    ensures
        final(buf)@ == old(buf)@ + dht_bytes(),
{
    let head: [u8; 4] = [0xFF, 0xC4, 0x01, 0xA2];
    put_bytes(buf, &head);
    buf.push(0x00);
    put_bytes(buf, &Y_DC_BITS);
    put_bytes(buf, &Y_DC_VALS);
    buf.push(0x10);
    put_bytes(buf, &Y_AC_BITS);
    put_bytes(buf, &Y_AC_VALS);
    buf.push(0x01);
    put_bytes(buf, &C_DC_BITS);
    put_bytes(buf, &C_DC_VALS);
    buf.push(0x11);
    put_bytes(buf, &C_AC_BITS);
    put_bytes(buf, &C_AC_VALS);
    proof {
        assert(head@ =~= seq![0xFFu8, 0xC4u8, 0x01u8, 0xA2u8]);
        assert(buf@ =~= old(buf)@ + dht_bytes());
    }
}

pub fn write_sos(buf: &mut Vec<u8>)
    ensures
        final(buf)@ == old(buf)@ + sos_bytes(),
{
    let seg: [u8; 14] = [
        0xFF, 0xDA, 0x00, 0x0C, 0x03, 0x01, 0x00, 0x02, 0x11, 0x03, 0x11, 0x00, 0x3F, 0x00,
    ];
    put_bytes(buf, &seg);
    proof {
        assert(seg@ =~= sos_bytes());
    }
}

pub fn write_eoi(buf: &mut Vec<u8>)
    ensures
        final(buf)@ == old(buf)@ + eoi_bytes(),
{
    buf.push(0xFF);
    buf.push(0xD9);
    proof {
        assert(buf@ =~= old(buf)@ + eoi_bytes());
    }
}

} // verus!

//! Baseline JPEG encoding core: bit packing with byte stuffing, zigzag
//! ordering, quantisation, run-length coding, Huffman entropy coding and the
//! marker segments of a JFIF file.

pub mod bitstream;
pub mod bitwriter;
pub mod color;
pub mod dct;
pub mod decode;
pub mod encoder;
pub mod headers;
pub mod huffman;
pub mod markers;
pub mod quant;
pub mod rle;
pub mod zigzag;

pub use bitwriter::BitWriter;
pub use color::YCbCrImage;
pub use dct::{BlockI16, BlockU8, Dct};
pub use encoder::{encode_block, EncodeError, JpegEncoder};
pub use huffman::{calculate_size_and_amp, AcHuffmanTable, DcHuffmanTable};
pub use quant::{quant, quant_mut, QC, QY};
pub use rle::{rle, AcPair, EOB, ZRL};
pub use zigzag::{zigzag_scan, JPEG_ZIGZAG_LUT};

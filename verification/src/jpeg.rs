//! Just enough JPEG parsing to send baseline MJPEG frames as RTP/JPEG (RFC 2435).

use vstd::prelude::*;
use crate::bytes::{
    be16_at, bytes_eq, copy_range, last_where, lemma_last_where_concat, lemma_last_where_found,
    lemma_last_where_single,
};
use crate::text::{dec_chars, hex_chars, push_dec, push_hex};

verus! {

/// DC luminance code-length counts of the standard Huffman table.
pub open spec fn spec_dc_lum_bits() -> Seq<u8> {
    seq![
        0x00u8, 0x01, 0x05, 0x01, 0x01, 0x01, 0x01, 0x01, 0x01, 0x00, 0x00, 0x00,
        0x00, 0x00, 0x00, 0x00,
    ]
}

/// DC luminance code-length counts of the standard Huffman table (ITU T.81 Annex K.3).
pub fn dc_lum_bits() -> (t: &'static [u8])
    ensures
        t@ == spec_dc_lum_bits(),
{
    let t: &'static [u8] = &[
        0x00u8, 0x01, 0x05, 0x01, 0x01, 0x01, 0x01, 0x01, 0x01, 0x00, 0x00, 0x00,
        0x00, 0x00, 0x00, 0x00,
    ];
    assert(t@ =~= spec_dc_lum_bits());
    t
}

/// DC luminance symbol values of the standard Huffman table.
pub open spec fn spec_dc_lum_vals() -> Seq<u8> {
    seq![
        0x00u8, 0x01, 0x02, 0x03, 0x04, 0x05, 0x06, 0x07, 0x08, 0x09, 0x0a, 0x0b,
    ]
}

/// DC luminance symbol values of the standard Huffman table (ITU T.81 Annex K.3).
pub fn dc_lum_vals() -> (t: &'static [u8])
    ensures
        t@ == spec_dc_lum_vals(),
{
    let t: &'static [u8] = &[
        0x00u8, 0x01, 0x02, 0x03, 0x04, 0x05, 0x06, 0x07, 0x08, 0x09, 0x0a, 0x0b,
    ];
    assert(t@ =~= spec_dc_lum_vals());
    t
}

/// DC chrominance code-length counts of the standard Huffman table.
pub open spec fn spec_dc_chroma_bits() -> Seq<u8> {
    seq![
        0x00u8, 0x03, 0x01, 0x01, 0x01, 0x01, 0x01, 0x01, 0x01, 0x01, 0x01, 0x00,
        0x00, 0x00, 0x00, 0x00,
    ]
}

/// DC chrominance code-length counts of the standard Huffman table (ITU T.81 Annex K.3).
pub fn dc_chroma_bits() -> (t: &'static [u8])
    ensures
        t@ == spec_dc_chroma_bits(),
{
    let t: &'static [u8] = &[
        0x00u8, 0x03, 0x01, 0x01, 0x01, 0x01, 0x01, 0x01, 0x01, 0x01, 0x01, 0x00,
        0x00, 0x00, 0x00, 0x00,
    ];
    assert(t@ =~= spec_dc_chroma_bits());
    t
}

/// DC chrominance symbol values of the standard Huffman table.
pub open spec fn spec_dc_chroma_vals() -> Seq<u8> {
    seq![
        0x00u8, 0x01, 0x02, 0x03, 0x04, 0x05, 0x06, 0x07, 0x08, 0x09, 0x0a, 0x0b,
    ]
}

/// DC chrominance symbol values of the standard Huffman table (ITU T.81 Annex K.3).
pub fn dc_chroma_vals() -> (t: &'static [u8])
    ensures
        t@ == spec_dc_chroma_vals(),
{
    let t: &'static [u8] = &[
        0x00u8, 0x01, 0x02, 0x03, 0x04, 0x05, 0x06, 0x07, 0x08, 0x09, 0x0a, 0x0b,
    ];
    assert(t@ =~= spec_dc_chroma_vals());
    t
}

/// AC luminance code-length counts of the standard Huffman table.
pub open spec fn spec_ac_lum_bits() -> Seq<u8> {
    seq![
        0x00u8, 0x02, 0x01, 0x03, 0x03, 0x02, 0x04, 0x03, 0x05, 0x05, 0x04, 0x04,
        0x00, 0x00, 0x01, 0x7d,
    ]
}

/// AC luminance code-length counts of the standard Huffman table (ITU T.81 Annex K.3).
pub fn ac_lum_bits() -> (t: &'static [u8])
    ensures
        t@ == spec_ac_lum_bits(),
{
    let t: &'static [u8] = &[
        0x00u8, 0x02, 0x01, 0x03, 0x03, 0x02, 0x04, 0x03, 0x05, 0x05, 0x04, 0x04,
        0x00, 0x00, 0x01, 0x7d,
    ];
    assert(t@ =~= spec_ac_lum_bits());
    t
}

/// AC luminance symbol values of the standard Huffman table.
pub open spec fn spec_ac_lum_vals() -> Seq<u8> {
    seq![
        0x01u8, 0x02, 0x03, 0x00, 0x04, 0x11, 0x05, 0x12, 0x21, 0x31, 0x41, 0x06,
        0x13, 0x51, 0x61, 0x07, 0x22, 0x71, 0x14, 0x32, 0x81, 0x91, 0xa1, 0x08,
        0x23, 0x42, 0xb1, 0xc1, 0x15, 0x52, 0xd1, 0xf0, 0x24, 0x33, 0x62, 0x72,
        0x82, 0x09, 0x0a, 0x16, 0x17, 0x18, 0x19, 0x1a, 0x25, 0x26, 0x27, 0x28,
        0x29, 0x2a, 0x34, 0x35, 0x36, 0x37, 0x38, 0x39, 0x3a, 0x43, 0x44, 0x45,
        0x46, 0x47, 0x48, 0x49, 0x4a, 0x53, 0x54, 0x55, 0x56, 0x57, 0x58, 0x59,
        0x5a, 0x63, 0x64, 0x65, 0x66, 0x67, 0x68, 0x69, 0x6a, 0x73, 0x74, 0x75,
        0x76, 0x77, 0x78, 0x79, 0x7a, 0x83, 0x84, 0x85, 0x86, 0x87, 0x88, 0x89,
        0x8a, 0x92, 0x93, 0x94, 0x95, 0x96, 0x97, 0x98, 0x99, 0x9a, 0xa2, 0xa3,
        0xa4, 0xa5, 0xa6, 0xa7, 0xa8, 0xa9, 0xaa, 0xb2, 0xb3, 0xb4, 0xb5, 0xb6,
        0xb7, 0xb8, 0xb9, 0xba, 0xc2, 0xc3, 0xc4, 0xc5, 0xc6, 0xc7, 0xc8, 0xc9,
        0xca, 0xd2, 0xd3, 0xd4, 0xd5, 0xd6, 0xd7, 0xd8, 0xd9, 0xda, 0xe1, 0xe2,
        0xe3, 0xe4, 0xe5, 0xe6, 0xe7, 0xe8, 0xe9, 0xea, 0xf1, 0xf2, 0xf3, 0xf4,
        0xf5, 0xf6, 0xf7, 0xf8, 0xf9, 0xfa,
    ]
}

/// AC luminance symbol values of the standard Huffman table (ITU T.81 Annex K.3).
pub fn ac_lum_vals() -> (t: &'static [u8])
    ensures
        t@ == spec_ac_lum_vals(),
{
    let t: &'static [u8] = &[
        0x01u8, 0x02, 0x03, 0x00, 0x04, 0x11, 0x05, 0x12, 0x21, 0x31, 0x41, 0x06,
        0x13, 0x51, 0x61, 0x07, 0x22, 0x71, 0x14, 0x32, 0x81, 0x91, 0xa1, 0x08,
        0x23, 0x42, 0xb1, 0xc1, 0x15, 0x52, 0xd1, 0xf0, 0x24, 0x33, 0x62, 0x72,
        0x82, 0x09, 0x0a, 0x16, 0x17, 0x18, 0x19, 0x1a, 0x25, 0x26, 0x27, 0x28,
        0x29, 0x2a, 0x34, 0x35, 0x36, 0x37, 0x38, 0x39, 0x3a, 0x43, 0x44, 0x45,
        0x46, 0x47, 0x48, 0x49, 0x4a, 0x53, 0x54, 0x55, 0x56, 0x57, 0x58, 0x59,
        0x5a, 0x63, 0x64, 0x65, 0x66, 0x67, 0x68, 0x69, 0x6a, 0x73, 0x74, 0x75,
        0x76, 0x77, 0x78, 0x79, 0x7a, 0x83, 0x84, 0x85, 0x86, 0x87, 0x88, 0x89,
        0x8a, 0x92, 0x93, 0x94, 0x95, 0x96, 0x97, 0x98, 0x99, 0x9a, 0xa2, 0xa3,
        0xa4, 0xa5, 0xa6, 0xa7, 0xa8, 0xa9, 0xaa, 0xb2, 0xb3, 0xb4, 0xb5, 0xb6,
        0xb7, 0xb8, 0xb9, 0xba, 0xc2, 0xc3, 0xc4, 0xc5, 0xc6, 0xc7, 0xc8, 0xc9,
        0xca, 0xd2, 0xd3, 0xd4, 0xd5, 0xd6, 0xd7, 0xd8, 0xd9, 0xda, 0xe1, 0xe2,
        0xe3, 0xe4, 0xe5, 0xe6, 0xe7, 0xe8, 0xe9, 0xea, 0xf1, 0xf2, 0xf3, 0xf4,
        0xf5, 0xf6, 0xf7, 0xf8, 0xf9, 0xfa,
    ];
    assert(t@ =~= spec_ac_lum_vals());
    t
}

/// AC chrominance code-length counts of the standard Huffman table.
pub open spec fn spec_ac_chroma_bits() -> Seq<u8> {
    seq![
        0x00u8, 0x02, 0x01, 0x02, 0x04, 0x04, 0x03, 0x04, 0x07, 0x05, 0x04, 0x04,
        0x00, 0x01, 0x02, 0x77,
    ]
}

/// AC chrominance code-length counts of the standard Huffman table (ITU T.81 Annex K.3).
pub fn ac_chroma_bits() -> (t: &'static [u8])
    ensures
        t@ == spec_ac_chroma_bits(),
{
    let t: &'static [u8] = &[
        0x00u8, 0x02, 0x01, 0x02, 0x04, 0x04, 0x03, 0x04, 0x07, 0x05, 0x04, 0x04,
        0x00, 0x01, 0x02, 0x77,
    ];
    assert(t@ =~= spec_ac_chroma_bits());
    t
}

/// AC chrominance symbol values of the standard Huffman table.
pub open spec fn spec_ac_chroma_vals() -> Seq<u8> {
    seq![
        0x00u8, 0x01, 0x02, 0x03, 0x11, 0x04, 0x05, 0x21, 0x31, 0x06, 0x12, 0x41,
        0x51, 0x07, 0x61, 0x71, 0x13, 0x22, 0x32, 0x81, 0x08, 0x14, 0x42, 0x91,
        0xa1, 0xb1, 0xc1, 0x09, 0x23, 0x33, 0x52, 0xf0, 0x15, 0x62, 0x72, 0xd1,
        0x0a, 0x16, 0x24, 0x34, 0xe1, 0x25, 0xf1, 0x17, 0x18, 0x19, 0x1a, 0x26,
        0x27, 0x28, 0x29, 0x2a, 0x35, 0x36, 0x37, 0x38, 0x39, 0x3a, 0x43, 0x44,
        0x45, 0x46, 0x47, 0x48, 0x49, 0x4a, 0x53, 0x54, 0x55, 0x56, 0x57, 0x58,
        0x59, 0x5a, 0x63, 0x64, 0x65, 0x66, 0x67, 0x68, 0x69, 0x6a, 0x73, 0x74,
        0x75, 0x76, 0x77, 0x78, 0x79, 0x7a, 0x82, 0x83, 0x84, 0x85, 0x86, 0x87,
        0x88, 0x89, 0x8a, 0x92, 0x93, 0x94, 0x95, 0x96, 0x97, 0x98, 0x99, 0x9a,
        0xa2, 0xa3, 0xa4, 0xa5, 0xa6, 0xa7, 0xa8, 0xa9, 0xaa, 0xb2, 0xb3, 0xb4,
        0xb5, 0xb6, 0xb7, 0xb8, 0xb9, 0xba, 0xc2, 0xc3, 0xc4, 0xc5, 0xc6, 0xc7,
        0xc8, 0xc9, 0xca, 0xd2, 0xd3, 0xd4, 0xd5, 0xd6, 0xd7, 0xd8, 0xd9, 0xda,
        0xe2, 0xe3, 0xe4, 0xe5, 0xe6, 0xe7, 0xe8, 0xe9, 0xea, 0xf2, 0xf3, 0xf4,
        0xf5, 0xf6, 0xf7, 0xf8, 0xf9, 0xfa,
    ]
}

/// AC chrominance symbol values of the standard Huffman table (ITU T.81 Annex K.3).
pub fn ac_chroma_vals() -> (t: &'static [u8])
    ensures
        t@ == spec_ac_chroma_vals(),
{
    let t: &'static [u8] = &[
        0x00u8, 0x01, 0x02, 0x03, 0x11, 0x04, 0x05, 0x21, 0x31, 0x06, 0x12, 0x41,
        0x51, 0x07, 0x61, 0x71, 0x13, 0x22, 0x32, 0x81, 0x08, 0x14, 0x42, 0x91,
        0xa1, 0xb1, 0xc1, 0x09, 0x23, 0x33, 0x52, 0xf0, 0x15, 0x62, 0x72, 0xd1,
        0x0a, 0x16, 0x24, 0x34, 0xe1, 0x25, 0xf1, 0x17, 0x18, 0x19, 0x1a, 0x26,
        0x27, 0x28, 0x29, 0x2a, 0x35, 0x36, 0x37, 0x38, 0x39, 0x3a, 0x43, 0x44,
        0x45, 0x46, 0x47, 0x48, 0x49, 0x4a, 0x53, 0x54, 0x55, 0x56, 0x57, 0x58,
        0x59, 0x5a, 0x63, 0x64, 0x65, 0x66, 0x67, 0x68, 0x69, 0x6a, 0x73, 0x74,
        0x75, 0x76, 0x77, 0x78, 0x79, 0x7a, 0x82, 0x83, 0x84, 0x85, 0x86, 0x87,
        0x88, 0x89, 0x8a, 0x92, 0x93, 0x94, 0x95, 0x96, 0x97, 0x98, 0x99, 0x9a,
        0xa2, 0xa3, 0xa4, 0xa5, 0xa6, 0xa7, 0xa8, 0xa9, 0xaa, 0xb2, 0xb3, 0xb4,
        0xb5, 0xb6, 0xb7, 0xb8, 0xb9, 0xba, 0xc2, 0xc3, 0xc4, 0xc5, 0xc6, 0xc7,
        0xc8, 0xc9, 0xca, 0xd2, 0xd3, 0xd4, 0xd5, 0xd6, 0xd7, 0xd8, 0xd9, 0xda,
        0xe2, 0xe3, 0xe4, 0xe5, 0xe6, 0xe7, 0xe8, 0xe9, 0xea, 0xf2, 0xf3, 0xf4,
        0xf5, 0xf6, 0xf7, 0xf8, 0xf9, 0xfa,
    ];
    assert(t@ =~= spec_ac_chroma_vals());
    t
}

/// The standard Huffman table for class `tc` (0 = DC, 1 = AC) and destination `th`
/// (0 = luminance, 1 = chrominance): (code-length counts, symbol values).
pub open spec fn spec_std_table(tc: u8, th: u8) -> Option<(Seq<u8>, Seq<u8>)> {
    if tc == 0 && th == 0 {
        Some((spec_dc_lum_bits(), spec_dc_lum_vals()))
    } else if tc == 0 && th == 1 {
        Some((spec_dc_chroma_bits(), spec_dc_chroma_vals()))
    } else if tc == 1 && th == 0 {
        Some((spec_ac_lum_bits(), spec_ac_lum_vals()))
    } else if tc == 1 && th == 1 {
        Some((spec_ac_chroma_bits(), spec_ac_chroma_vals()))
    } else {
        None
    }
}

/// The standard Huffman table for class `tc` and destination `th`, if there is one.
pub fn std_table(tc: u8, th: u8) -> (r: Option<(&'static [u8], &'static [u8])>)
    ensures
        match (r, spec_std_table(tc, th)) {
            (Some((b, v)), Some((sb, sv))) => b@ == sb && v@ == sv,
            (None, None) => true,
            _ => false,
        },
{
    if tc == 0 && th == 0 {
        Some((dc_lum_bits(), dc_lum_vals()))
    } else if tc == 0 && th == 1 {
        Some((dc_chroma_bits(), dc_chroma_vals()))
    } else if tc == 1 && th == 0 {
        Some((ac_lum_bits(), ac_lum_vals()))
    } else if tc == 1 && th == 1 {
        Some((ac_chroma_bits(), ac_chroma_vals()))
    } else {
        None
    }
}

/// There is a standard table exactly for the four (class, destination) pairs with both at
/// most 1, and each has 16 code-length counts whose sum is its number of symbol values.
pub proof fn lemma_std_tables_well_formed(tc: u8, th: u8)
    ensures
        spec_std_table(tc, th) is Some <==> (tc <= 1 && th <= 1),
        spec_std_table(tc, th) matches Some((b, v)) ==> b.len() == 16 && byte_sum(b) == v.len(),
{
    reveal_with_fuel(byte_sum, 17);
    assert(byte_sum(spec_dc_lum_bits()) == spec_dc_lum_vals().len());
    assert(byte_sum(spec_dc_chroma_bits()) == spec_dc_chroma_vals().len());
    assert(byte_sum(spec_ac_lum_bits()) == spec_ac_lum_vals().len());
    assert(byte_sum(spec_ac_chroma_bits()) == spec_ac_chroma_vals().len());
}

/// Why a frame cannot be sent as RTP/JPEG.
#[derive(Debug, Clone, Copy)]
pub enum JpegError {
    /// Shorter than 4 bytes or no start-of-image marker.
    NotJpeg,
    /// Something other than a marker at this offset.
    BadMarker(usize),
    /// A segment length below 2 or running past the end.
    Truncated,
    /// A quantisation table with 16-bit entries.
    Precision16,
    /// A quantisation table that is cut short or has a destination above 3.
    BadDqt,
    /// A baseline frame header that is not 8-bit.
    NotEightBit,
    /// A frame header without exactly three components.
    NeedThreeComponents,
    /// A progressive, lossless or arithmetic-coded frame.
    NotBaseline,
    /// No frame header or no scan header.
    NoFrameOrScan,
    /// A chroma component sampled other than 1x1.
    ChromaNotOneByOne,
    /// A luma sampling other than 2x1 or 2x2 (the factor byte).
    Sampling(u8),
    /// Cb and Cr use different quantisation tables.
    ChromaTablesDiffer,
    /// A quantisation table a component refers to is not defined.
    MissingTable,
    /// Width or height 0, or above 2040 (width, height).
    PictureSize(usize, usize),
    /// No entropy-coded data.
    EmptyScan,
}

/// What RTP/JPEG needs to know about one frame.
pub struct JpegInfo {
    pub width: u16,
    pub height: u16,
    /// RFC 2435 type: 0 = 4:2:2, 1 = 4:2:0, +64 when the stream uses restart markers
    pub rtp_type: u8,
    /// luminance table then chrominance table, 64 bytes each, zig-zag order as stored in the file
    pub qtables: Vec<u8>,
    pub dri: u16,
    /// entropy-coded data: bytes after the SOS header, before the final EOI
    pub scan_start: usize,
    pub scan_end: usize,
    /// the frame carries Huffman tables that differ from the standard ones RTP/JPEG assumes
    pub custom_huffman: bool,
}

/// The mathematical content of a [`JpegInfo`].
pub struct JpegInfoSpec {
    pub width: u16,
    pub height: u16,
    pub rtp_type: u8,
    pub qtables: Seq<u8>,
    pub dri: u16,
    pub scan_start: usize,
    pub scan_end: usize,
    pub custom_huffman: bool,
}

impl View for JpegInfo {
    type V = JpegInfoSpec;

    open spec fn view(&self) -> JpegInfoSpec {
        JpegInfoSpec {
            width: self.width,
            height: self.height,
            rtp_type: self.rtp_type,
            qtables: self.qtables@,
            dri: self.dri,
            scan_start: self.scan_start,
            scan_end: self.scan_end,
            custom_huffman: self.custom_huffman,
        }
    }
}

/// What the marker scan has collected so far.
pub struct JpegScan {
    /// quantisation tables by destination 0..=3
    pub qt: Seq<Option<Seq<u8>>>,
    /// (component id, sampling factors h<<4|v, quantisation table) of the frame header
    pub comps: Seq<(u8, u8, u8)>,
    pub width: int,
    pub height: int,
    pub dri: u16,
    pub custom: bool,
    pub have_sof: bool,
}

/// The scan state before the first marker.
pub open spec fn scan_start_state() -> JpegScan {
    JpegScan {
        qt: seq![None, None, None, None],
        comps: Seq::empty(),
        width: 0,
        height: 0,
        dri: 0,
        custom: false,
        have_sof: false,
    }
}

/// The quantisation tables after reading a DQT segment from offset `o`.
pub open spec fn dqt_tables(seg: Seq<u8>, o: int, qt: Seq<Option<Seq<u8>>>) -> Result<
    Seq<Option<Seq<u8>>>,
    JpegError,
>
    decreases seg.len() - o,
{
    if o < 0 || o >= seg.len() {
        Ok(qt)
    } else if seg[o] >> 4u8 != 0 {
        Err(JpegError::Precision16)
    } else if o + 1 + 64 > seg.len() || seg[o] & 15u8 > 3 {
        Err(JpegError::BadDqt)
    } else {
        dqt_tables(seg, o + 65, qt.update((seg[o] & 15u8) as int, Some(seg.subrange(o + 1, o + 65))))
    }
}

/// Sum of the bytes of `s`.
pub open spec fn byte_sum(s: Seq<u8>) -> nat
    decreases s.len(),
{
    if s.len() == 0 {
        0
    } else {
        byte_sum(s.drop_last()) + s.last() as nat
    }
}

/// Whether a Huffman table equals the standard one for its class and destination.
pub open spec fn is_std_huffman(tc: u8, th: u8, bits: Seq<u8>, vals: Seq<u8>) -> bool {
    match spec_std_table(tc, th) {
        Some((sb, sv)) => sb == bits && sv == vals,
        None => false,
    }
}

/// Whether a DHT segment, read from offset `o`, holds a complete table that is not standard.
/// Reading stops at the first table that does not fit.
pub open spec fn dht_custom(seg: Seq<u8>, o: int) -> bool
    decreases seg.len() - o,
{
    if o < 0 || o + 17 > seg.len() {
        false
    } else {
        let n = byte_sum(seg.subrange(o + 1, o + 17));
        if o + 17 + n > seg.len() {
            false
        } else {
            !is_std_huffman(seg[o] >> 4u8, seg[o] & 15u8, seg.subrange(o + 1, o + 17),
                seg.subrange(o + 17, o + 17 + n))
                || dht_custom(seg, o + 17 + n)
        }
    }
}

/// Whether marker `m` starts a frame that is not baseline.
pub open spec fn is_non_baseline_sof(m: u8) -> bool {
    m == 0xC1 || m == 0xC2 || m == 0xC3 || m == 0xC5 || m == 0xC6 || m == 0xC7 || m == 0xC9
        || m == 0xCA || m == 0xCB
}

/// The effect of one segment (marker `m`, payload `seg`) other than SOS.
pub open spec fn segment_effect(m: u8, seg: Seq<u8>, st: JpegScan) -> Result<JpegScan, JpegError> {
    if m == 0xDB {
        match dqt_tables(seg, 0, st.qt) {
            Ok(qt) => Ok(JpegScan { qt, ..st }),
            Err(e) => Err(e),
        }
    } else if m == 0xC0 {
        if seg.len() < 6 || seg[0] != 8 {
            Err(JpegError::NotEightBit)
        } else if seg[5] != 3 || seg.len() < 15 {
            Err(JpegError::NeedThreeComponents)
        } else {
            Ok(JpegScan {
                height: be16_at(seg, 1),
                width: be16_at(seg, 3),
                comps: seq![(seg[6], seg[7], seg[8]), (seg[9], seg[10], seg[11]), (seg[12], seg[13], seg[14])],
                have_sof: true,
                ..st
            })
        }
    } else if is_non_baseline_sof(m) {
        Err(JpegError::NotBaseline)
    } else if m == 0xC4 {
        Ok(JpegScan { custom: st.custom || dht_custom(seg, 0), ..st })
    } else if m == 0xDD {
        if seg.len() >= 2 {
            Ok(JpegScan { dri: be16_at(seg, 0) as u16, ..st })
        } else {
            Ok(st)
        }
    } else {
        Ok(st)
    }
}

/// Markers that stand alone, without a length.
pub open spec fn is_standalone(m: u8) -> bool {
    m == 0xD8 || m == 0x01 || (0xD0 <= m && m <= 0xD7)
}

/// Walks the markers from `pos`: the collected state and, if a scan header was reached,
/// the offset where its entropy-coded data begins.
pub open spec fn scan_markers(d: Seq<u8>, pos: int, st: JpegScan) -> Result<(JpegScan, Option<int>), JpegError>
    decreases d.len() - pos,
{
    if pos < 0 || pos + 4 > d.len() {
        Ok((st, None))
    } else if d[pos] != 0xFF {
        Err(JpegError::BadMarker(pos as usize))
    } else if d[pos + 1] == 0xFF {
        scan_markers(d, pos + 1, st)
    } else if is_standalone(d[pos + 1]) {
        scan_markers(d, pos + 2, st)
    } else {
        let ln = be16_at(d, pos + 2);
        if ln < 2 || pos + 2 + ln > d.len() {
            Err(JpegError::Truncated)
        } else if d[pos + 1] == 0xDA {
            Ok((st, Some(pos + 2 + ln)))
        } else {
            match segment_effect(d[pos + 1], d.subrange(pos + 4, pos + 2 + ln), st) {
                Ok(st2) => scan_markers(d, pos + 2 + ln, st2),
                Err(e) => Err(e),
            }
        }
    }
}

/// Moves `end` down until the two bytes before it are an EOI marker or fewer than two remain.
pub open spec fn eoi_end(d: Seq<u8>, end: int) -> int
    decreases end,
{
    if end >= 2 && end <= d.len() && !(d[end - 2] == 0xFF && d[end - 1] == 0xD9) {
        eoi_end(d, end - 1)
    } else {
        end
    }
}

/// Where the entropy-coded data ends: before the last EOI marker, or at the end of the data.
pub open spec fn scan_end_of(d: Seq<u8>) -> int {
    let e = eoi_end(d, d.len() as int);
    if e >= 2 {
        e - 2
    } else {
        d.len() as int
    }
}

/// `ceil(v / 8)`.
pub open spec fn blocks8(v: int) -> int {
    (v + 7) / 8
}

/// The checks after the marker scan, and the result.
pub open spec fn finish_spec(d: Seq<u8>, st: JpegScan, scan: Option<int>) -> Result<JpegInfoSpec, JpegError> {
    if !st.have_sof || scan is None {
        Err(JpegError::NoFrameOrScan)
    } else if st.comps[1].1 != 0x11 || st.comps[2].1 != 0x11 {
        Err(JpegError::ChromaNotOneByOne)
    } else if st.comps[0].1 != 0x21 && st.comps[0].1 != 0x22 {
        Err(JpegError::Sampling(st.comps[0].1))
    } else if st.comps[2].2 != st.comps[1].2 {
        Err(JpegError::ChromaTablesDiffer)
    } else if st.comps[0].2 > 3 || st.comps[1].2 > 3 || st.qt[st.comps[0].2 as int] is None
        || st.qt[st.comps[1].2 as int] is None {
        Err(JpegError::MissingTable)
    } else if st.width == 0 || st.height == 0 || blocks8(st.width) > 255 || blocks8(st.height) > 255 {
        Err(JpegError::PictureSize(st.width as usize, st.height as usize))
    } else if scan_end_of(d) <= scan->0 {
        Err(JpegError::EmptyScan)
    } else {
        let base: u8 = if st.comps[0].1 == 0x21 { 0 } else { 1 };
        Ok(JpegInfoSpec {
            width: st.width as u16,
            height: st.height as u16,
            rtp_type: if st.dri > 0 { (base + 64) as u8 } else { base },
            qtables: st.qt[st.comps[0].2 as int]->0 + st.qt[st.comps[1].2 as int]->0,
            dri: st.dri,
            scan_start: scan->0 as usize,
            scan_end: scan_end_of(d) as usize,
            custom_huffman: st.custom,
        })
    }
}

/// The analysis of a whole frame.
pub open spec fn analyze_spec(d: Seq<u8>) -> Result<JpegInfoSpec, JpegError> {
    if d.len() < 4 || d[0] != 0xFF || d[1] != 0xD8 {
        Err(JpegError::NotJpeg)
    } else {
        match scan_markers(d, 2, scan_start_state()) {
            Ok((st, scan)) => finish_spec(d, st, scan),
            Err(e) => Err(e),
        }
    }
}

/// A byte sequence by view, for optional tables.
pub open spec fn opt_seq(o: Option<Vec<u8>>) -> Option<Seq<u8>> {
    match o {
        Some(v) => Some(v@),
        None => None,
    }
}

/// An optional offset as an integer.
pub open spec fn opt_int(o: Option<usize>) -> Option<int> {
    match o {
        Some(v) => Some(v as int),
        None => None,
    }
}

/// The marker scan's state while it runs.
struct ScanState {
    qt: Vec<Option<Vec<u8>>>,
    comps: Vec<(u8, u8, u8)>,
    width: usize,
    height: usize,
    dri: u16,
    custom: bool,
    have_sof: bool,
}

impl ScanState {
    spec fn scan_view(&self) -> JpegScan {
        JpegScan {
            qt: self.qt@.map_values(|o: Option<Vec<u8>>| opt_seq(o)),
            comps: self.comps@,
            width: self.width as int,
            height: self.height as int,
            dri: self.dri,
            custom: self.custom,
            have_sof: self.have_sof,
        }
    }

    spec fn wf(&self) -> bool {
        &&& self.qt@.len() == 4
        &&& (self.have_sof ==> self.comps@.len() == 3)
        &&& self.width <= 65535
        &&& self.height <= 65535
    }
}

/// Sum of the bytes of a short slice.
fn sum_bytes(s: &[u8]) -> (n: usize)
    requires
        s.len() <= 16,
    ensures
        n == byte_sum(s@),
        n <= 255 * 16,
{
    let mut n: usize = 0;
    let mut i: usize = 0;
    while i < s.len()
        invariant
            i <= s.len() <= 16,
            n == byte_sum(s@.subrange(0, i as int)),
            n <= 255 * i,
        decreases s.len() - i,
    {
        assert(s@.subrange(0, i + 1).drop_last() =~= s@.subrange(0, i as int));
        n = n + s[i] as usize;
        i += 1;
    }
    assert(s@.subrange(0, s.len() as int) =~= s@);
    n
}

/// Reads the quantisation tables of a DQT segment into the state.
fn read_dqt(seg: &[u8], st: &mut ScanState) -> (r: Result<(), JpegError>)
    requires
        old(st).wf(),
    ensures
        final(st).wf(),
        match dqt_tables(seg@, 0, old(st).scan_view().qt) {
            Ok(qt) => r is Ok && final(st).scan_view() == (JpegScan { qt, ..old(st).scan_view() }),
            Err(e) => r == Err::<(), JpegError>(e),
        },
{
    let ghost st0 = st.scan_view();
    let mut o: usize = 0;
    while o < seg.len()
        invariant
            st.wf(),
            st0 == old(st).scan_view(),
            o <= seg.len(),
            dqt_tables(seg@, 0, st0.qt) == dqt_tables(seg@, o as int, st.scan_view().qt),
            st.scan_view() == (JpegScan { qt: st.scan_view().qt, ..st0 }),
        decreases seg.len() - o,
    {
        let pq = seg[o] >> 4u8;
        let tq = seg[o] & 15u8;
        if pq != 0 {
            return Err(JpegError::Precision16);
        }
        if seg.len() - o - 1 < 64 || tq > 3 {
            return Err(JpegError::BadDqt);
        }
        let t = copy_range(seg, o + 1, o + 65);
        let ghost old_qt = st.scan_view().qt;
        st.qt.set(tq as usize, Some(t));
        assert(st.scan_view().qt =~= old_qt.update(tq as int, Some(seg@.subrange(o + 1, o + 65))));
        o = o + 65;
    }
    Ok(())
}

/// Whether a DHT segment holds a complete table that differs from the standard one.
fn dht_is_custom(seg: &[u8]) -> (r: bool)
    ensures
        r == dht_custom(seg@, 0),
{
    let mut o: usize = 0;
    while o <= seg.len() && seg.len() - o >= 17
        invariant
            dht_custom(seg@, 0) == dht_custom(seg@, o as int),
        decreases seg.len() - o,
    {
        let tc = seg[o] >> 4u8;
        let th = seg[o] & 15u8;
        let bits = vstd::slice::slice_subrange(seg, o + 1, o + 17);
        let n = sum_bytes(bits);
        if seg.len() - o - 17 < n {
            return false;
        }
        let vals = vstd::slice::slice_subrange(seg, o + 17, o + 17 + n);
        let same = match std_table(tc, th) {
            Some((sb, sv)) => bytes_eq(sb, bits) && bytes_eq(sv, vals),
            None => false,
        };
        if !same {
            return true;
        }
        o = o + 17 + n;
    }
    false
}

/// Applies one segment other than SOS to the state.
fn apply_segment(m: u8, seg: &[u8], st: &mut ScanState) -> (r: Result<(), JpegError>)
    requires
        old(st).wf(),
    ensures
        final(st).wf(),
        match segment_effect(m, seg@, old(st).scan_view()) {
            Ok(s2) => r is Ok && final(st).scan_view() == s2,
            Err(e) => r == Err::<(), JpegError>(e),
        },
{
    if m == 0xDB {
        read_dqt(seg, st)
    } else if m == 0xC0 {
        if seg.len() < 6 || seg[0] != 8 {
            return Err(JpegError::NotEightBit);
        }
        if seg[5] != 3 || seg.len() < 15 {
            return Err(JpegError::NeedThreeComponents);
        }
        st.height = (seg[1] as usize) * 256 + (seg[2] as usize);
        st.width = (seg[3] as usize) * 256 + (seg[4] as usize);
        let mut comps: Vec<(u8, u8, u8)> = Vec::new();
        comps.push((seg[6], seg[7], seg[8]));
        comps.push((seg[9], seg[10], seg[11]));
        comps.push((seg[12], seg[13], seg[14]));
        st.comps = comps;
        st.have_sof = true;
        assert(st.comps@ =~= seq![(seg@[6], seg@[7], seg@[8]), (seg@[9], seg@[10], seg@[11]), (seg@[12], seg@[13], seg@[14])]);
        Ok(())
    } else if m == 0xC1 || m == 0xC2 || m == 0xC3 || m == 0xC5 || m == 0xC6 || m == 0xC7 || m == 0xC9
        || m == 0xCA || m == 0xCB {
        Err(JpegError::NotBaseline)
    } else if m == 0xC4 {
        if dht_is_custom(seg) {
            st.custom = true;
        }
        Ok(())
    } else if m == 0xDD {
        if seg.len() >= 2 {
            st.dri = (seg[0] as u16) * 256 + (seg[1] as u16);
        }
        Ok(())
    } else {
        Ok(())
    }
}

/// Walks the markers of a frame that starts with SOI.
fn scan_frame(d: &[u8]) -> (r: Result<(ScanState, Option<usize>), JpegError>)
    ensures
        match scan_markers(d@, 2, scan_start_state()) {
            Ok((st, sc)) => r matches Ok((s2, sc2)) && s2.wf() && s2.scan_view() == st
                && opt_int(sc2) == sc,
            Err(e) => r matches Err(e2) && e2 == e,
        },
{
    let mut qt: Vec<Option<Vec<u8>>> = Vec::new();
    qt.push(None);
    qt.push(None);
    qt.push(None);
    qt.push(None);
    let mut st = ScanState {
        qt,
        comps: Vec::new(),
        width: 0,
        height: 0,
        dri: 0,
        custom: false,
        have_sof: false,
    };
    assert(st.scan_view().qt =~= scan_start_state().qt);
    assert(st.scan_view().comps =~= scan_start_state().comps);
    if d.len() < 2 {
        return Ok((st, None));
    }
    let mut pos: usize = 2;
    loop
        invariant
            st.wf(),
            2 <= pos <= d.len(),
            scan_markers(d@, 2, scan_start_state()) == scan_markers(d@, pos as int, st.scan_view()),
        decreases d.len() - pos,
    {
        if d.len() - pos < 4 {
            return Ok((st, None));
        }
        if d[pos] != 0xFF {
            return Err(JpegError::BadMarker(pos));
        }
        let m = d[pos + 1];
        if m == 0xFF {
            pos += 1;
            continue;
        }
        if m == 0xD8 || m == 0x01 || (0xD0 <= m && m <= 0xD7) {
            pos += 2;
            continue;
        }
        let ln = (d[pos + 2] as usize) * 256 + (d[pos + 3] as usize);
        if ln < 2 || d.len() - pos - 2 < ln {
            return Err(JpegError::Truncated);
        }
        if m == 0xDA {
            return Ok((st, Some(pos + 2 + ln)));
        }
        let seg = vstd::slice::slice_subrange(d, pos + 4, pos + 2 + ln);
        match apply_segment(m, seg, &mut st) {
            Ok(()) => {},
            Err(e) => {
                return Err(e);
            },
        }
        pos = pos + 2 + ln;
    }
}

/// Where the entropy-coded data ends.
fn find_scan_end(d: &[u8]) -> (e: usize)
    ensures
        e as int == scan_end_of(d@),
{
    let mut end = d.len();
    while end >= 2 && !(d[end - 2] == 0xFF && d[end - 1] == 0xD9)
        invariant
            end <= d.len(),
            eoi_end(d@, d.len() as int) == eoi_end(d@, end as int),
        decreases end,
    {
        end -= 1;
    }
    if end >= 2 {
        end - 2
    } else {
        d.len()
    }
}

/// The checks after the marker scan.
fn finish(d: &[u8], st: ScanState, scan: Option<usize>) -> (r: Result<JpegInfo, JpegError>)
    requires
        st.wf(),
    ensures
        match finish_spec(d@, st.scan_view(), opt_int(scan)) {
            Ok(i) => r matches Ok(info) && info@ == i,
            Err(e) => r matches Err(e2) && e2 == e,
        },
{
    let scan_start = match scan {
        Some(s) => s,
        None => {
            return Err(JpegError::NoFrameOrScan);
        },
    };
    if !st.have_sof {
        return Err(JpegError::NoFrameOrScan);
    }
    let c0 = st.comps[0];
    let c1 = st.comps[1];
    let c2 = st.comps[2];
    if c1.1 != 0x11 || c2.1 != 0x11 {
        return Err(JpegError::ChromaNotOneByOne);
    }
    let base_type: u8 = if c0.1 == 0x21 {
        0
    } else if c0.1 == 0x22 {
        1
    } else {
        return Err(JpegError::Sampling(c0.1));
    };
    if c2.2 != c1.2 {
        return Err(JpegError::ChromaTablesDiffer);
    }
    if c0.2 > 3 || c1.2 > 3 {
        return Err(JpegError::MissingTable);
    }
    let mut qtables: Vec<u8> = Vec::with_capacity(128);
    match &st.qt[c0.2 as usize] {
        Some(t) => crate::bytes::push_all(&mut qtables, t.as_slice()),
        None => {
            return Err(JpegError::MissingTable);
        },
    }
    match &st.qt[c1.2 as usize] {
        Some(t) => crate::bytes::push_all(&mut qtables, t.as_slice()),
        None => {
            return Err(JpegError::MissingTable);
        },
    }
    let width = st.width;
    let height = st.height;
    if width == 0 || height == 0 || (width + 7) / 8 > 255 || (height + 7) / 8 > 255 {
        return Err(JpegError::PictureSize(width, height));
    }
    let scan_end = find_scan_end(d);
    if scan_end <= scan_start {
        return Err(JpegError::EmptyScan);
    }
    let rtp_type: u8 = if st.dri > 0 { base_type + 64 } else { base_type };
    Ok(JpegInfo {
        width: width as u16,
        height: height as u16,
        rtp_type,
        qtables,
        dri: st.dri,
        scan_start,
        scan_end,
        custom_huffman: st.custom,
    })
}

/// Analyses one JPEG picture for RTP/JPEG; the error says why it cannot be sent that way.
pub fn analyze_frame(d: &[u8]) -> (r: Result<JpegInfo, JpegError>)
    ensures
        match analyze_spec(d@) {
            Ok(i) => r matches Ok(info) && info@ == i,
            Err(e) => r matches Err(e2) && e2 == e,
        },
{
    if d.len() < 4 || d[0] != 0xFF || d[1] != 0xD8 {
        return Err(JpegError::NotJpeg);
    }
    match scan_frame(d) {
        Ok((st, scan)) => finish(d, st, scan),
        Err(e) => Err(e),
    }
}

/// The log text for each error.
pub open spec fn jpeg_error_text(e: JpegError) -> Seq<char> {
    match e {
        JpegError::NotJpeg => "not a JPEG"@,
        JpegError::BadMarker(pos) => "bad marker at "@ + dec_chars(pos as nat),
        JpegError::Truncated => "truncated segment"@,
        JpegError::Precision16 => "16-bit quantisation tables are not supported"@,
        JpegError::BadDqt => "bad DQT"@,
        JpegError::NotEightBit => "not 8-bit baseline"@,
        JpegError::NeedThreeComponents => "need 3 components"@,
        JpegError::NotBaseline => "only baseline JPEG can go over RTP/JPEG"@,
        JpegError::NoFrameOrScan => "no SOF/SOS"@,
        JpegError::ChromaNotOneByOne => "chroma components must be 1x1"@,
        JpegError::Sampling(f) => "unsupported sampling "@ + hex_chars(f as nat, 2, false)
            + " (RTP/JPEG only carries 4:2:2 and 4:2:0)"@,
        JpegError::ChromaTablesDiffer => "Cb and Cr use different quantisation tables"@,
        JpegError::MissingTable => "missing quantisation table"@,
        JpegError::PictureSize(w, h) => "picture size "@ + dec_chars(w as nat) + "x"@ + dec_chars(
            h as nat,
        ) + " cannot be described by RTP/JPEG (max 2040)"@,
        JpegError::EmptyScan => "empty scan"@,
    }
}

impl JpegError {
    /// The log text of this error.
    pub fn message(&self) -> (m: String)
        ensures
            m@ == jpeg_error_text(*self),
    {
        match *self {
            JpegError::NotJpeg => String::from_str("not a JPEG"),
            JpegError::BadMarker(pos) => {
                let mut m = String::from_str("bad marker at ");
                push_dec(&mut m, pos as u64);
                m
            },
            JpegError::Truncated => String::from_str("truncated segment"),
            JpegError::Precision16 => String::from_str("16-bit quantisation tables are not supported"),
            JpegError::BadDqt => String::from_str("bad DQT"),
            JpegError::NotEightBit => String::from_str("not 8-bit baseline"),
            JpegError::NeedThreeComponents => String::from_str("need 3 components"),
            JpegError::NotBaseline => String::from_str("only baseline JPEG can go over RTP/JPEG"),
            JpegError::NoFrameOrScan => String::from_str("no SOF/SOS"),
            JpegError::ChromaNotOneByOne => String::from_str("chroma components must be 1x1"),
            JpegError::Sampling(f) => {
                let mut m = String::from_str("unsupported sampling ");
                push_hex(&mut m, f as u64, 2, false);
                m.append(" (RTP/JPEG only carries 4:2:2 and 4:2:0)");
                m
            },
            JpegError::ChromaTablesDiffer => String::from_str("Cb and Cr use different quantisation tables"),
            JpegError::MissingTable => String::from_str("missing quantisation table"),
            JpegError::PictureSize(w, h) => {
                let mut m = String::from_str("picture size ");
                push_dec(&mut m, w as u64);
                m.append("x");
                push_dec(&mut m, h as u64);
                m.append(" cannot be described by RTP/JPEG (max 2040)");
                m
            },
            JpegError::EmptyScan => String::from_str("empty scan"),
        }
    }
}

/// Analyses one JPEG picture for RTP/JPEG (RFC 2435); the error text says why it cannot be
/// sent that way.
pub fn analyze(d: &[u8]) -> (r: Result<JpegInfo, String>)
    ensures
        match analyze_spec(d@) {
            Ok(i) => r matches Ok(info) && info@ == i,
            Err(e) => r matches Err(m) && m@ == jpeg_error_text(e),
        },
{
    match analyze_frame(d) {
        Ok(info) => Ok(info),
        Err(e) => Err(e.message()),
    }
}

/// Every defined quantisation table has 64 entries, and there are four destinations.
pub open spec fn tables_ok(qt: Seq<Option<Seq<u8>>>) -> bool {
    &&& qt.len() == 4
    &&& forall|i: int| 0 <= i < 4 && #[trigger] qt[i] is Some ==> qt[i]->0.len() == 64
}

proof fn lemma_dqt_tables(seg: Seq<u8>, o: int, qt: Seq<Option<Seq<u8>>>)
    requires
        tables_ok(qt),
    ensures
        dqt_tables(seg, o, qt) matches Ok(q2) ==> tables_ok(q2),
    decreases seg.len() - o,
{
    if o >= 0 && o < seg.len() && seg[o] >> 4u8 == 0 && !(o + 1 + 64 > seg.len() || seg[o] & 15u8 > 3) {
        let q1 = qt.update((seg[o] & 15u8) as int, Some(seg.subrange(o + 1, o + 65)));
        assert(tables_ok(q1));
        lemma_dqt_tables(seg, o + 65, q1);
    }
}

proof fn lemma_scan_markers(d: Seq<u8>, pos: int, st: JpegScan)
    requires
        tables_ok(st.qt),
        0 <= st.width <= 65535,
        0 <= st.height <= 65535,
    ensures
        scan_markers(d, pos, st) matches Ok((s2, sc)) ==> {
            &&& tables_ok(s2.qt)
            &&& 0 <= s2.width <= 65535
            &&& 0 <= s2.height <= 65535
            &&& (sc matches Some(x) ==> 0 <= x <= d.len())
        },
    decreases d.len() - pos,
{
    if pos < 0 || pos + 4 > d.len() || d[pos] != 0xFF {
    } else if d[pos + 1] == 0xFF {
        lemma_scan_markers(d, pos + 1, st);
    } else if is_standalone(d[pos + 1]) {
        lemma_scan_markers(d, pos + 2, st);
    } else {
        let ln = be16_at(d, pos + 2);
        if ln < 2 || pos + 2 + ln > d.len() || d[pos + 1] == 0xDA {
        } else {
            let seg = d.subrange(pos + 4, pos + 2 + ln);
            if d[pos + 1] == 0xDB {
                lemma_dqt_tables(seg, 0, st.qt);
            }
            match segment_effect(d[pos + 1], seg, st) {
                Ok(st2) => {
                    lemma_scan_markers(d, pos + 2 + ln, st2);
                },
                Err(_) => {},
            }
        }
    }
}

proof fn lemma_eoi_end(d: Seq<u8>, end: int)
    requires
        end <= d.len(),
    ensures
        eoi_end(d, end) <= end,
    decreases end,
{
    if end >= 2 && end <= d.len() && !(d[end - 2] == 0xFF && d[end - 1] == 0xD9) {
        lemma_eoi_end(d, end - 1);
    }
}

/// What every frame that can be sent as RTP/JPEG satisfies: both sides between 1 and 2040
/// pixels, a non-empty scan inside the data, two 64-entry quantisation tables, and an RTP/JPEG
/// type of 0 (4:2:2) or 1 (4:2:0), plus 64 exactly when restart markers are in use.
pub proof fn lemma_analyze_bounds(d: Seq<u8>)
    requires
        d.len() <= usize::MAX,
    ensures
        analyze_spec(d) matches Ok(i) ==> {
            &&& 1 <= i.width <= 2040
            &&& 1 <= i.height <= 2040
            &&& i.scan_start < i.scan_end <= d.len()
            &&& i.qtables.len() == 128
            &&& (i.rtp_type == 0 || i.rtp_type == 1 || i.rtp_type == 64 || i.rtp_type == 65)
            &&& (i.rtp_type >= 64 <==> i.dri > 0)
        },
{
    if d.len() >= 4 && d[0] == 0xFF && d[1] == 0xD8 {
        let st0 = scan_start_state();
        assert(tables_ok(st0.qt));
        lemma_scan_markers(d, 2, st0);
        lemma_eoi_end(d, d.len() as int);
        match scan_markers(d, 2, st0) {
            Ok((st, scan)) => {
                if let Ok(i) = finish_spec(d, st, scan) {
                    let (w, h) = (st.width, st.height);
                    assert(blocks8(w) <= 255 ==> w <= 2040) by (nonlinear_arith);
                    assert(blocks8(h) <= 255 ==> h <= 2040) by (nonlinear_arith);
                    assert(st.qt[st.comps[0].2 as int] is Some);
                    assert(st.qt[st.comps[1].2 as int] is Some);
                }
            },
            Err(_) => {},
        }
    }
}

/// The segments (marker, payload) that the marker walk from `pos` reads before the scan
/// header, in file order.
pub open spec fn segments_from(d: Seq<u8>, pos: int) -> Seq<(u8, Seq<u8>)>
    decreases d.len() - pos,
{
    if pos < 0 || pos + 4 > d.len() || d[pos] != 0xFF {
        Seq::empty()
    } else if d[pos + 1] == 0xFF {
        segments_from(d, pos + 1)
    } else if is_standalone(d[pos + 1]) {
        segments_from(d, pos + 2)
    } else {
        let ln = be16_at(d, pos + 2);
        if ln < 2 || pos + 2 + ln > d.len() || d[pos + 1] == 0xDA {
            Seq::empty()
        } else {
            seq![(d[pos + 1], d.subrange(pos + 4, pos + 2 + ln))] + segments_from(d, pos + 2 + ln)
        }
    }
}

/// Whether a segment sets the restart interval (a DRI with its two bytes).
pub open spec fn is_dri_segment(x: (u8, Seq<u8>)) -> bool {
    x.0 == 0xDD && x.1.len() >= 2
}

/// Whether a segment is a baseline frame header.
pub open spec fn is_sof0_segment(x: (u8, Seq<u8>)) -> bool {
    x.0 == 0xC0
}

/// Whether a segment is a DHT with a complete table that is not the standard one.
pub open spec fn is_custom_dht_segment(x: (u8, Seq<u8>)) -> bool {
    x.0 == 0xC4 && dht_custom(x.1, 0)
}

/// The (destination, table) entries of a DQT segment from offset `o`.
pub open spec fn dqt_entries(seg: Seq<u8>, o: int) -> Seq<(u8, Seq<u8>)>
    decreases seg.len() - o,
{
    if o < 0 || o >= seg.len() || o + 1 + 64 > seg.len() {
        Seq::empty()
    } else {
        seq![(seg[o] & 15u8, seg.subrange(o + 1, o + 65))] + dqt_entries(seg, o + 65)
    }
}

/// The quantisation table entries of all DQT segments, in file order.
pub open spec fn qt_entries(segs: Seq<(u8, Seq<u8>)>) -> Seq<(u8, Seq<u8>)>
    decreases segs.len(),
{
    if segs.len() == 0 {
        Seq::empty()
    } else {
        qt_entries(segs.drop_last()) + if segs.last().0 == 0xDB {
            dqt_entries(segs.last().1, 0)
        } else {
            Seq::empty()
        }
    }
}

/// The last table defined for destination `t`, or `init` if none is.
pub open spec fn last_table(es: Seq<(u8, Seq<u8>)>, t: int, init: Option<Seq<u8>>) -> Option<Seq<u8>> {
    match last_where(es, |e: (u8, Seq<u8>)| e.0 as int == t) {
        Some(k) => Some(es[k].1),
        None => init,
    }
}

/// The three components (id, sampling, table) of a frame header payload.
pub open spec fn sof_components(p: Seq<u8>) -> Seq<(u8, u8, u8)> {
    seq![(p[6], p[7], p[8]), (p[9], p[10], p[11]), (p[12], p[13], p[14])]
}

proof fn lemma_qt_entries_prepend(x: (u8, Seq<u8>), rest: Seq<(u8, Seq<u8>)>)
    ensures
        qt_entries(seq![x] + rest) == qt_entries(seq![x]) + qt_entries(rest),
    decreases rest.len(),
{
    if rest.len() == 0 {
        assert(seq![x] + rest =~= seq![x]);
        assert(qt_entries(rest) == Seq::<(u8, Seq<u8>)>::empty());
        assert(qt_entries(seq![x]) + qt_entries(rest) =~= qt_entries(seq![x]));
    } else {
        assert((seq![x] + rest).drop_last() =~= seq![x] + rest.drop_last());
        lemma_qt_entries_prepend(x, rest.drop_last());
        let tail = if rest.last().0 == 0xDB { dqt_entries(rest.last().1, 0) } else { Seq::empty() };
        assert(qt_entries(seq![x] + rest) == qt_entries(seq![x] + rest.drop_last()) + tail);
        assert(qt_entries(rest) == qt_entries(rest.drop_last()) + tail);
        assert(qt_entries(seq![x]) + qt_entries(rest.drop_last()) + tail =~= qt_entries(seq![x]) + (qt_entries(rest.drop_last()) + tail));
    }
}

proof fn lemma_dqt_entries(seg: Seq<u8>, o: int, qt: Seq<Option<Seq<u8>>>)
    requires
        qt.len() == 4,
        o >= 0,
    ensures
        dqt_tables(seg, o, qt) matches Ok(q2) ==> q2.len() == 4 && forall|t: int|
            0 <= t < 4 ==> #[trigger] q2[t] == last_table(dqt_entries(seg, o), t, qt[t]),
    decreases seg.len() - o,
{
    if o < seg.len() && seg[o] >> 4u8 == 0 && !(o + 1 + 64 > seg.len() || seg[o] & 15u8 > 3) {
        let tq = (seg[o] & 15u8) as int;
        let q1 = qt.update(tq, Some(seg.subrange(o + 1, o + 65)));
        lemma_dqt_entries(seg, o + 65, q1);
        let x = (seg[o] & 15u8, seg.subrange(o + 1, o + 65));
        let rest = dqt_entries(seg, o + 65);
        assert(dqt_entries(seg, o) == seq![x] + rest);
        if let Ok(q2) = dqt_tables(seg, o, qt) {
            assert forall|t: int| 0 <= t < 4 implies #[trigger] q2[t] == last_table(dqt_entries(seg, o), t, qt[t]) by {
                let p = |e: (u8, Seq<u8>)| e.0 as int == t;
                lemma_last_where_concat(seq![x], rest, p);
                lemma_last_where_single(x, p);
                lemma_last_where_found(rest, p);
                let es = seq![x] + rest;
                assert(es == dqt_entries(seg, o));
                assert(q2[t] == last_table(rest, t, q1[t]));
                match last_where(rest, p) {
                    Some(k) => {
                        assert(es[1 + k] == rest[k]);
                    },
                    None => {
                        assert(es[0] == x);
                    },
                }
            }
        }
    } else if o >= seg.len() {
        assert(dqt_entries(seg, o) == Seq::<(u8, Seq<u8>)>::empty());
    }
}

/// What the marker walk collects, stated over the segments it reads: the restart interval of
/// the last DRI, the custom-table flag of any DHT, the components of the last frame header,
/// the last table defined for each destination, and a scan that starts after a whole header.
proof fn lemma_scan_segments(d: Seq<u8>, pos: int, st: JpegScan)
    requires
        st.qt.len() == 4,
        pos >= 0,
    ensures
        scan_markers(d, pos, st) matches Ok((s2, sc)) ==> {
            let segs = segments_from(d, pos);
            &&& s2.dri == match last_where(segs, |x: (u8, Seq<u8>)| is_dri_segment(x)) {
                Some(k) => be16_at(segs[k].1, 0) as u16,
                None => st.dri,
            }
            &&& s2.custom == (st.custom || exists|k: int| 0 <= k < segs.len() && is_custom_dht_segment(#[trigger] segs[k]))
            &&& match last_where(segs, |x: (u8, Seq<u8>)| is_sof0_segment(x)) {
                Some(k) => s2.have_sof && s2.comps == sof_components(segs[k].1) && segs[k].1.len() >= 15
                    && s2.height == segs[k].1[1] as int * 256 + segs[k].1[2] as int
                    && s2.width == segs[k].1[3] as int * 256 + segs[k].1[4] as int,
                None => s2.have_sof == st.have_sof && s2.comps == st.comps && s2.width == st.width
                    && s2.height == st.height,
            }
            &&& s2.qt.len() == 4
            &&& forall|t: int| 0 <= t < 4 ==> #[trigger] s2.qt[t] == last_table(qt_entries(segs), t, st.qt[t])
            &&& (sc matches Some(x) ==> x >= pos + 4)
        },
    decreases d.len() - pos,
{
    if pos + 4 > d.len() || d[pos] != 0xFF {
    } else if d[pos + 1] == 0xFF {
        lemma_scan_segments(d, pos + 1, st);
    } else if is_standalone(d[pos + 1]) {
        lemma_scan_segments(d, pos + 2, st);
    } else {
        let ln = be16_at(d, pos + 2);
        if ln < 2 || pos + 2 + ln > d.len() || d[pos + 1] == 0xDA {
        } else {
            let m = d[pos + 1];
            let seg = d.subrange(pos + 4, pos + 2 + ln);
            let x = (m, seg);
            if let Ok(st2) = segment_effect(m, seg, st) {
                if m == 0xDB {
                    lemma_dqt_entries(seg, 0, st.qt);
                }
                lemma_scan_segments(d, pos + 2 + ln, st2);
                let rest = segments_from(d, pos + 2 + ln);
                let segs = segments_from(d, pos);
                assert(segs == seq![x] + rest);
                if let Ok((s2, sc)) = scan_markers(d, pos, st) {
                    assert(scan_markers(d, pos, st) == scan_markers(d, pos + 2 + ln, st2));
                    let one = seq![x];
                    assert(one.drop_last() =~= Seq::<(u8, Seq<u8>)>::empty());
                    let pd = |y: (u8, Seq<u8>)| is_dri_segment(y);
                    let ps = |y: (u8, Seq<u8>)| is_sof0_segment(y);
                    lemma_last_where_concat(one, rest, pd);
                    lemma_last_where_concat(one, rest, ps);
                    lemma_last_where_single(x, pd);
                    lemma_last_where_single(x, ps);
                    lemma_last_where_found(rest, pd);
                    lemma_last_where_found(rest, ps);
                    assert forall|k: int| 0 <= k < rest.len() implies segs[k + 1] == rest[k] by {}
                    assert(segs[0] == x);
                    match last_where(rest, pd) {
                        Some(k) => assert(segs[k + 1] == rest[k]),
                        None => {},
                    }
                    match last_where(rest, ps) {
                        Some(k) => assert(segs[k + 1] == rest[k]),
                        None => {},
                    }
                    // the custom flag
                    if exists|k: int| 0 <= k < rest.len() && is_custom_dht_segment(#[trigger] rest[k]) {
                        let k = choose|k: int| 0 <= k < rest.len() && is_custom_dht_segment(#[trigger] rest[k]);
                        assert(is_custom_dht_segment(segs[k + 1]));
                    }
                    if exists|k: int| 0 <= k < segs.len() && is_custom_dht_segment(#[trigger] segs[k]) {
                        let k = choose|k: int| 0 <= k < segs.len() && is_custom_dht_segment(#[trigger] segs[k]);
                        if k > 0 {
                            assert(is_custom_dht_segment(rest[k - 1]));
                        }
                    }
                    // the tables
                    lemma_qt_entries_prepend(x, rest);
                    assert(qt_entries(one) == qt_entries(one.drop_last()) + if m == 0xDB {
                        dqt_entries(seg, 0)
                    } else {
                        Seq::empty()
                    });
                    assert forall|t: int| 0 <= t < 4 implies #[trigger] s2.qt[t] == last_table(qt_entries(segs), t, st.qt[t]) by {
                        let pt = |e: (u8, Seq<u8>)| e.0 as int == t;
                        lemma_last_where_concat(qt_entries(one), qt_entries(rest), pt);
                        let e1 = qt_entries(one);
                        if m == 0xDB {
                            assert(e1 =~= dqt_entries(seg, 0));
                        } else {
                            assert(e1 =~= Seq::<(u8, Seq<u8>)>::empty());
                        }
                        lemma_last_where_found(qt_entries(rest), pt);
                        match last_where(qt_entries(rest), pt) {
                            Some(k) => {
                                assert((e1 + qt_entries(rest))[e1.len() + k] == qt_entries(rest)[k]);
                            },
                            None => {
                                match last_where(e1, pt) {
                                    Some(k) => {
                                        lemma_last_where_found(e1, pt);
                                        assert((e1 + qt_entries(rest))[k] == e1[k]);
                                    },
                                    None => {},
                                }
                            },
                        }
                    }
                }
            }
        }
    }
}

/// Where the data ends: before the last EOI marker (FF D9), or at the end if there is none.
pub open spec fn is_eoi_at(d: Seq<u8>, k: int) -> bool {
    0 <= k && k + 1 < d.len() && d[k] == 0xFF && d[k + 1] == 0xD9
}

proof fn lemma_eoi_end_last(d: Seq<u8>, end: int)
    requires
        0 <= end <= d.len(),
        forall|k: int| end - 1 <= k && #[trigger] is_eoi_at(d, k) ==> false,
    ensures
        ({
            let e = eoi_end(d, end);
            &&& e >= 2 ==> is_eoi_at(d, e - 2) && forall|k: int| e - 2 < k ==> !#[trigger] is_eoi_at(d, k)
            &&& e < 2 ==> forall|k: int| !#[trigger] is_eoi_at(d, k)
        }),
    decreases end,
{
    if end >= 2 && !(d[end - 2] == 0xFF && d[end - 1] == 0xD9) {
        assert forall|k: int| end - 2 <= k && #[trigger] is_eoi_at(d, k) implies false by {
            if k == end - 2 {
            } else {
                assert(end - 1 <= k);
            }
        }
        lemma_eoi_end_last(d, end - 1);
    } else if end < 2 {
        assert forall|k: int| #[trigger] is_eoi_at(d, k) implies false by {
            assert(end - 1 <= k);
        }
    }
}

/// What an analysed frame says, in the file's own terms. The height and width are the
/// big-endian 16-bit values at bytes 1-2 and 3-4 of the last baseline frame header. The RFC 2435 type is 0 for luma
/// sampling 0x21 (4:2:2) and 1 for 0x22 (4:2:0) in the last frame header, plus 64 when a
/// restart interval is set; the restart interval is that of the last DRI before the scan (0
/// without one). The tables sent are the last table defined for the luma component's
/// destination and then the last one for the destination both chroma components share. The
/// Huffman flag is set exactly when some DHT before the scan holds a complete table that is
/// not the standard one. The scan starts after a whole SOS header (at offset 6 or later) and
/// ends before the last FF D9 pair, or at the end of the data without one.
pub proof fn lemma_analysis_in_file_terms(d: Seq<u8>)
    requires
        d.len() <= usize::MAX,
    ensures
        analyze_spec(d) matches Ok(i) ==> {
            let segs = segments_from(d, 2);
            let sof = last_where(segs, |x: (u8, Seq<u8>)| is_sof0_segment(x));
            let dri = last_where(segs, |x: (u8, Seq<u8>)| is_dri_segment(x));
            let es = qt_entries(segs);
            &&& sof is Some
            &&& {
                let p = segs[sof->0].1;
                &&& p.len() >= 15
                &&& i.height as int == p[1] as int * 256 + p[2] as int
                &&& i.width as int == p[3] as int * 256 + p[4] as int
                &&& (p[7] == 0x21 || p[7] == 0x22)
                &&& i.rtp_type == (if p[7] == 0x21 { 0int } else { 1int }) + (if i.dri > 0 { 64int } else { 0int })
                &&& p[14] == p[11]
                &&& i.qtables == last_table(es, p[8] as int, None).unwrap() + last_table(es, p[11] as int, None).unwrap()
            }
            &&& i.dri == match dri {
                Some(k) => be16_at(segs[k].1, 0) as u16,
                None => 0u16,
            }
            &&& i.custom_huffman == exists|k: int| 0 <= k < segs.len() && is_custom_dht_segment(#[trigger] segs[k])
            &&& 6 <= i.scan_start
            &&& (exists|k: int| #[trigger] is_eoi_at(d, k)) ==> is_eoi_at(d, i.scan_end as int)
                && forall|k: int| i.scan_end < k ==> !#[trigger] is_eoi_at(d, k)
            &&& (forall|k: int| !#[trigger] is_eoi_at(d, k)) ==> i.scan_end == d.len()
        },
{
    if d.len() >= 4 && d[0] == 0xFF && d[1] == 0xD8 {
        let st0 = scan_start_state();
        lemma_scan_segments(d, 2, st0);
        assert(tables_ok(st0.qt));
        lemma_scan_markers(d, 2, st0);
        lemma_eoi_end(d, d.len() as int);
        lemma_eoi_end_last(d, d.len() as int);
        if let Ok((st, scan)) = scan_markers(d, 2, st0) {
            if let Ok(i) = finish_spec(d, st, scan) {
                let segs = segments_from(d, 2);
                let sof = last_where(segs, |x: (u8, Seq<u8>)| is_sof0_segment(x));
                assert(sof is Some);
                let p = segs[sof->0].1;
                assert(st.comps == sof_components(p));
                assert(p.len() >= 15);
                assert(p[7] == 0x21 || p[7] == 0x22);
                assert(i.rtp_type == (if p[7] == 0x21 { 0int } else { 1int }) + (if i.dri > 0 { 64int } else { 0int }));
                assert(st.qt[st.comps[0].2 as int] == last_table(qt_entries(segs), st.comps[0].2 as int, None));
                assert(st.qt[st.comps[1].2 as int] == last_table(qt_entries(segs), st.comps[1].2 as int, None));
                assert(i.qtables == last_table(qt_entries(segs), p[8] as int, None).unwrap() + last_table(qt_entries(segs), p[11] as int, None).unwrap());
                assert(6 <= i.scan_start);
            }
        }
    }
}

} // verus!

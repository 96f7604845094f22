//! Chunk-level PNG container codec: the signature, the chunk framing with its
//! CRC-32, the header and palette chunks, and the end marker.
use vstd::prelude::*;

verus! {

/// The eight bytes every PNG stream begins with.
pub const SIGNATURE: [u8; 8] = [0x89, 0x50, 0x4E, 0x47, 0x0D, 0x0A, 0x1A, 0x0A];

pub const IEND: [u8; 4] = [0x49, 0x45, 0x4E, 0x44];

pub const IHDR: [u8; 4] = [0x49, 0x48, 0x44, 0x52];

pub const IDAT: [u8; 4] = [0x49, 0x44, 0x41, 0x54];

pub const PLTE: [u8; 4] = [0x50, 0x4C, 0x54, 0x45];

/// CRC-32 of the end marker: its tag with an empty payload.
pub const IEND_CRC: [u8; 4] = [0xAE, 0x42, 0x60, 0x82];

/// Largest payload of one data chunk written by the encoder.
pub const MAX_DATA_CHUNK: usize = 4096;

pub open spec fn signature_seq() -> Seq<u8> {
    seq![0x89u8, 0x50u8, 0x4Eu8, 0x47u8, 0x0Du8, 0x0Au8, 0x1Au8, 0x0Au8]
}

pub open spec fn iend_seq() -> Seq<u8> {
    seq![0x49u8, 0x45u8, 0x4Eu8, 0x44u8]
}

pub open spec fn ihdr_seq() -> Seq<u8> {
    seq![0x49u8, 0x48u8, 0x44u8, 0x52u8]
}

pub open spec fn idat_seq() -> Seq<u8> {
    seq![0x49u8, 0x44u8, 0x41u8, 0x54u8]
}

pub open spec fn plte_seq() -> Seq<u8> {
    seq![0x50u8, 0x4Cu8, 0x54u8, 0x45u8]
}

/// The twelve bytes of the end marker chunk: zero length, tag, fixed CRC-32.
pub open spec fn end_marker() -> Seq<u8> {
    seq![0u8, 0u8, 0u8, 0u8, 0x49u8, 0x45u8, 0x4Eu8, 0x44u8, 0xAEu8, 0x42u8, 0x60u8, 0x82u8]
}

/// Errors of the container codec.
#[derive(Debug, Clone, Copy, PartialEq, Eq, Structural)]
pub enum FormatError {
    BadSignature,
    Truncated,
    ChecksumMismatch,
    InvalidHeader,
    InvalidColourModel,
    InvalidPalette,
    DecompressionFailed,
    CompressionFailed,
    /// An interlaced image, or a row whose filter-type byte is not 0: rows
    /// are read as unfiltered and non-interlaced only.
    Unsupported,
}

/// CRC-32 (IEEE) of a byte sequence, as crc32fast computes it.
pub uninterp spec fn crc32_of(bytes: Seq<u8>) -> u32;

/// Relies on crc32fast::hash: the CRC-32 of the whole buffer.
#[verifier::external_body]
fn crc32(bytes: &[u8]) -> (r: u32)
    ensures
        r == crc32_of(bytes@),
{
    crc32fast::hash(bytes)
}

/// The big-endian value of four bytes.
pub open spec fn be_u32(a: u8, b: u8, c: u8, d: u8) -> u32 {
    ((a as u32) << 24u32) | ((b as u32) << 16u32) | ((c as u32) << 8u32) | (d as u32)
}

/// The four big-endian bytes of a value.
pub open spec fn u32_bytes(v: u32) -> Seq<u8> {
    seq![(v >> 24u32) as u8, (v >> 16u32) as u8, (v >> 8u32) as u8, v as u8]
}

pub proof fn lemma_be_u32_bytes(v: u32)
    ensures
        be_u32(u32_bytes(v)[0], u32_bytes(v)[1], u32_bytes(v)[2], u32_bytes(v)[3]) == v,
{
    let a = (v >> 24u32) as u8;
    let b = (v >> 16u32) as u8;
    let c = (v >> 8u32) as u8;
    let d = v as u8;
    assert(((a as u32) << 24u32) | ((b as u32) << 16u32) | ((c as u32) << 8u32) | (d as u32) == v)
        by (bit_vector)
        requires
            a == (v >> 24u32) as u8,
            b == (v >> 16u32) as u8,
            c == (v >> 8u32) as u8,
            d == v as u8,
    ;
}

fn read_u32(s: &[u8], i: usize) -> (r: u32)
    requires
        i + 4 <= s@.len(),
    ensures
        r == be_u32(s@[i as int], s@[i + 1], s@[i + 2], s@[i + 3]),
{
    ((s[i] as u32) << 24u32) | ((s[i + 1] as u32) << 16u32) | ((s[i + 2] as u32) << 8u32) | (
    s[i + 3] as u32)
}

fn push_u32(out: &mut Vec<u8>, v: u32)
    ensures
        final(out)@ == old(out)@ + u32_bytes(v),
{
    out.push((v >> 24u32) as u8);
    out.push((v >> 16u32) as u8);
    out.push((v >> 8u32) as u8);
    out.push(v as u8);
    assert(out@ =~= old(out)@ + u32_bytes(v));
}

#[derive(Debug, Clone, Copy, PartialEq, Eq, Structural)]
pub enum ColourType {
    GreyScale,
    TrueColour,
    IndexedColour,
    GreyScaleAlpha,
    TrueColourAlpha,
}

#[derive(Debug, Clone, Copy, PartialEq, Eq, Structural)]
pub enum BitDepth {
    B1,
    B2,
    B4,
    B8,
    B16,
}

#[derive(Debug, Clone, Copy, PartialEq, Eq, Structural)]
pub struct Colour {
    pub bit_depth: BitDepth,
    pub t: ColourType,
}

#[derive(Debug, Clone, Copy, PartialEq, Eq, Structural)]
pub enum InterlaceMethod {
    NoInterlace,
    Adam7,
    Error,
}

impl InterlaceMethod {
    /// The byte that encodes this method; `Error` stands for every unknown byte.
    pub open spec fn spec_code(self) -> u8 {
        match self {
            InterlaceMethod::NoInterlace => 0,
            InterlaceMethod::Adam7 => 1,
            InterlaceMethod::Error => 255,
        }
    }

    pub fn from_u8(i: u8) -> (r: Self)
        ensures
            i == 0 ==> r == InterlaceMethod::NoInterlace,
            i == 1 ==> r == InterlaceMethod::Adam7,
            i > 1 ==> r == InterlaceMethod::Error,
    {
        match i {
            0 => InterlaceMethod::NoInterlace,
            1 => InterlaceMethod::Adam7,
            _ => InterlaceMethod::Error,
        }
    }

    pub fn code(&self) -> (r: u8)
        ensures
            r == self.spec_code(),
    {
        match self {
            InterlaceMethod::NoInterlace => 0,
            InterlaceMethod::Adam7 => 1,
            InterlaceMethod::Error => 255,
        }
    }
}

impl ColourType {
    /// The colour type byte of the header chunk.
    pub open spec fn spec_code(self) -> u8 {
        match self {
            ColourType::GreyScale => 0,
            ColourType::TrueColour => 2,
            ColourType::IndexedColour => 3,
            ColourType::GreyScaleAlpha => 4,
            ColourType::TrueColourAlpha => 6,
        }
    }

    pub open spec fn is_code(i: u8) -> bool {
        i == 0 || i == 2 || i == 3 || i == 4 || i == 6
    }

    pub fn from_u8(i: u8) -> (r: Option<Self>)
        ensures
            r is Some <==> Self::is_code(i),
            r matches Some(t) ==> t.spec_code() == i,
    {
        match i {
            0 => Some(ColourType::GreyScale),
            2 => Some(ColourType::TrueColour),
            3 => Some(ColourType::IndexedColour),
            4 => Some(ColourType::GreyScaleAlpha),
            6 => Some(ColourType::TrueColourAlpha),
            _ => None,
        }
    }

    pub fn code(&self) -> (r: u8)
        ensures
            r == self.spec_code(),
    {
        match self {
            ColourType::GreyScale => 0,
            ColourType::TrueColour => 2,
            ColourType::IndexedColour => 3,
            ColourType::GreyScaleAlpha => 4,
            ColourType::TrueColourAlpha => 6,
        }
    }
}

impl BitDepth {
    /// Bits per sample.
    pub open spec fn spec_bits(self) -> u8 {
        match self {
            BitDepth::B1 => 1,
            BitDepth::B2 => 2,
            BitDepth::B4 => 4,
            BitDepth::B8 => 8,
            BitDepth::B16 => 16,
        }
    }

    pub open spec fn is_bits(i: u8) -> bool {
        i == 1 || i == 2 || i == 4 || i == 8 || i == 16
    }

    pub fn from_u8(i: u8) -> (r: Option<Self>)
        ensures
            r is Some <==> Self::is_bits(i),
            r matches Some(b) ==> b.spec_bits() == i,
    {
        match i {
            1 => Some(BitDepth::B1),
            2 => Some(BitDepth::B2),
            4 => Some(BitDepth::B4),
            8 => Some(BitDepth::B8),
            16 => Some(BitDepth::B16),
            _ => None,
        }
    }

    pub fn bits(&self) -> (r: u8)
        ensures
            r == self.spec_bits(),
    {
        match self {
            BitDepth::B1 => 1,
            BitDepth::B2 => 2,
            BitDepth::B4 => 4,
            BitDepth::B8 => 8,
            BitDepth::B16 => 16,
        }
    }
}

impl Colour {
    /// The pairs of bit depth and colour type that PNG allows.
    pub open spec fn legal(bit_depth: BitDepth, t: ColourType) -> bool {
        match t {
            ColourType::GreyScale => true,
            ColourType::IndexedColour => bit_depth != BitDepth::B16,
            _ => bit_depth == BitDepth::B8 || bit_depth == BitDepth::B16,
        }
    }

    pub open spec fn wf(self) -> bool {
        Self::legal(self.bit_depth, self.t)
    }

    /// The legal pairs by their bytes: greyscale at any depth, indexed at 1 to
    /// 8 bits, the other colour types at 8 or 16 bits.
    pub open spec fn legal_codes(bit_depth: u8, colour_type: u8) -> bool {
        ||| colour_type == 0 && BitDepth::is_bits(bit_depth)
        ||| colour_type == 3 && (bit_depth == 1 || bit_depth == 2 || bit_depth == 4 || bit_depth
            == 8)
        ||| (colour_type == 2 || colour_type == 4 || colour_type == 6) && (bit_depth == 8
            || bit_depth == 16)
    }

    /// Reads the bit depth and colour type bytes; `None` for an unknown byte or
    /// a pair that PNG does not allow.
    pub fn from_u8(bit_depth: u8, colour_type: u8) -> (r: Option<Self>)
        ensures
            r is Some <==> Self::legal_codes(bit_depth, colour_type),
            r matches Some(c) ==> c.bit_depth.spec_bits() == bit_depth && c.t.spec_code()
                == colour_type && c.wf(),
    {
        let b = BitDepth::from_u8(bit_depth)?;
        let t = ColourType::from_u8(colour_type)?;
        if Self::check_legal(b, t) {
            Some(Colour { bit_depth: b, t })
        } else {
            None
        }
    }

    fn check_legal(bit_depth: BitDepth, t: ColourType) -> (r: bool)
        ensures
            r == Self::legal(bit_depth, t),
    {
        match t {
            ColourType::GreyScale => true,
            ColourType::IndexedColour => !matches!(bit_depth, BitDepth::B16),
            _ => matches!(bit_depth, BitDepth::B8 | BitDepth::B16),
        }
    }
}

/// The typed content of the header chunk.
#[derive(Debug, Clone, Copy, PartialEq, Eq, Structural)]
pub struct Header {
    pub width: u32,
    pub height: u32,
    pub colour: Colour,
    pub filter_method: u8,
    pub interlace: InterlaceMethod,
}

impl Header {
    /// Tells whether this header is one the decoder accepts.
    pub fn is_wf(&self) -> (r: bool)
        ensures
            r == self.wf(),
    {
        self.width > 0 && self.height > 0 && Colour::check_legal(self.colour.bit_depth, self.colour.t)
            && self.filter_method == 0 && !matches!(self.interlace, InterlaceMethod::Error)
    }

    /// A header that the decoder accepts and the encoder writes back unchanged.
    pub open spec fn wf(self) -> bool {
        &&& self.width > 0
        &&& self.height > 0
        &&& self.colour.wf()
        &&& self.filter_method == 0
        &&& self.interlace != InterlaceMethod::Error
    }

    /// The thirteen payload bytes of the header chunk.
    pub open spec fn spec_bytes(self) -> Seq<u8> {
        u32_bytes(self.width) + u32_bytes(self.height) + seq![
            self.colour.bit_depth.spec_bits(),
            self.colour.t.spec_code(),
            0u8,
            self.filter_method,
            self.interlace.spec_code(),
        ]
    }
}

/// What the header chunk's payload decodes to.
#[verifier::opaque]
pub open spec fn decode_header(d: Seq<u8>) -> Result<Header, FormatError> {
    if d.len() != 13 || d[10] != 0 {
        Err(FormatError::InvalidHeader)
    } else if !Colour::legal_codes(d[8], d[9]) {
        Err(FormatError::InvalidColourModel)
    } else {
        let width = be_u32(d[0], d[1], d[2], d[3]);
        let height = be_u32(d[4], d[5], d[6], d[7]);
        if width == 0 || height == 0 || d[11] != 0 || d[12] > 1 {
            Err(FormatError::InvalidHeader)
        } else {
            let c = choose|c: Colour| c.bit_depth.spec_bits() == d[8] && c.t.spec_code() == d[9];
            Ok(
                Header {
                    width,
                    height,
                    colour: c,
                    filter_method: 0,
                    interlace: if d[12] == 0 {
                        InterlaceMethod::NoInterlace
                    } else {
                        InterlaceMethod::Adam7
                    },
                },
            )
        }
    }
}

/// A chunk as it stands in the stream: its tag and its payload.
#[derive(Debug, Clone)]
pub struct RawChunk {
    pub name: [u8; 4],
    pub data: Vec<u8>,
}

/// Ordered RGB triples; the index of an entry is the sample value that selects it.
pub type Palette = Vec<[u8; 3]>;

/// A chunk after the header, as the document reads it.
#[derive(Debug, Clone)]
pub enum Chunk {
    Palette(Palette),
    Data(Vec<u8>),
    Other(RawChunk),
}

/// The model of a chunk: a palette by its flattened bytes, a data payload, or
/// any other chunk by tag and payload.
pub enum ChunkView {
    Palette(Seq<u8>),
    Data(Seq<u8>),
    Other(Seq<u8>, Seq<u8>),
}

/// The palette entries laid out one byte after another, three to an entry.
pub open spec fn palette_bytes(p: Seq<[u8; 3]>) -> Seq<u8> {
    Seq::new((3 * p.len()) as nat, |k: int| p[k / 3][k % 3])
}

impl Chunk {
    pub open spec fn view(self) -> ChunkView {
        match self {
            Chunk::Palette(p) => ChunkView::Palette(palette_bytes(p@)),
            Chunk::Data(d) => ChunkView::Data(d@),
            Chunk::Other(c) => ChunkView::Other(c.name@, c.data@),
        }
    }
}

pub open spec fn chunks_view(v: Seq<Chunk>) -> Seq<ChunkView> {
    v.map_values(|c: Chunk| c.view())
}

/// The stream form of a chunk: length, tag, payload, CRC-32 of tag and payload.
pub open spec fn chunk_bytes(name: Seq<u8>, data: Seq<u8>) -> Seq<u8> {
    u32_bytes(data.len() as u32) + name + data + u32_bytes(crc32_of(name + data))
}

pub open spec fn chunk_view_bytes(c: ChunkView) -> Seq<u8> {
    match c {
        ChunkView::Palette(b) => chunk_bytes(plte_seq(), b),
        ChunkView::Data(d) => chunk_bytes(idat_seq(), d),
        ChunkView::Other(n, d) => chunk_bytes(n, d),
    }
}

pub open spec fn chunks_bytes(cs: Seq<ChunkView>) -> Seq<u8>
    decreases cs.len(),
{
    if cs.len() == 0 {
        Seq::empty()
    } else {
        chunk_view_bytes(cs[0]) + chunks_bytes(cs.skip(1))
    }
}

/// The payload length that the first four bytes declare.
pub open spec fn declared_len(s: Seq<u8>) -> int {
    be_u32(s[0], s[1], s[2], s[3]) as int
}

/// Reads one framed chunk from the front of `s`: its tag and payload.
/// It takes `12 + payload length` bytes.
#[verifier::opaque]
pub open spec fn parse_raw_chunk(s: Seq<u8>) -> Result<(Seq<u8>, Seq<u8>), FormatError> {
    if s.len() < 12 || s.len() < 12 + declared_len(s) {
        Err(FormatError::Truncated)
    } else {
        let l = declared_len(s);
        let name = s.subrange(4, 8);
        let data = s.subrange(8, 8 + l);
        if be_u32(s[8 + l], s[9 + l], s[10 + l], s[11 + l]) != crc32_of(name + data) {
            Err(FormatError::ChecksumMismatch)
        } else {
            Ok((name, data))
        }
    }
}

/// Sorts a framed chunk by its tag; a palette must hold whole triples, at most 256.
pub open spec fn classify(name: Seq<u8>, data: Seq<u8>) -> Result<ChunkView, FormatError> {
    if name == plte_seq() {
        if data.len() % 3 != 0 || data.len() > 768 {
            Err(FormatError::InvalidPalette)
        } else {
            Ok(ChunkView::Palette(data))
        }
    } else if name == idat_seq() {
        Ok(ChunkView::Data(data))
    } else {
        Ok(ChunkView::Other(name, data))
    }
}

pub open spec fn starts_with_end(s: Seq<u8>) -> bool {
    s.len() >= 12 && s.subrange(0, 12) == end_marker()
}

/// Reads chunks up to and including the end marker; the result holds the
/// chunks and the number of bytes taken.
pub open spec fn parse_chunks(s: Seq<u8>) -> Result<(Seq<ChunkView>, int), FormatError>
    decreases s.len(),
{
    if starts_with_end(s) {
        Ok((Seq::empty(), 12))
    } else {
        match parse_raw_chunk(s) {
            Err(e) => Err(e),
            Ok((name, data)) => match classify(name, data) {
                Err(e) => Err(e),
                Ok(c) => {
                    let n: int = 12 + data.len() as int;
                    if 0 < n <= s.len() {
                        match parse_chunks(s.skip(n)) {
                            Err(e) => Err(e),
                            Ok((cs, m)) => Ok((seq![c] + cs, n + m)),
                        }
                    } else {
                        Err(FormatError::Truncated)
                    }
                }
            },
        }
    }
}

/// Reads a whole stream: signature, header chunk, chunks, end marker. The
/// result holds the header, the chunks and the number of bytes taken.
pub open spec fn parse_png(s: Seq<u8>) -> Result<(Header, Seq<ChunkView>, int), FormatError> {
    if s.len() < 8 || s.subrange(0, 8) != signature_seq() {
        Err(FormatError::BadSignature)
    } else {
        match parse_raw_chunk(s.skip(8)) {
            Err(e) => Err(e),
            Ok((name, data)) => if name != ihdr_seq() {
                Err(FormatError::InvalidHeader)
            } else {
                match decode_header(data) {
                    Err(e) => Err(e),
                    Ok(h) => match parse_chunks(s.skip(20 + data.len() as int)) {
                        Err(e) => Err(e),
                        Ok((cs, m)) => Ok((h, cs, 20 + data.len() as int + m)),
                    },
                }
            },
        }
    }
}

/// The stream that the writer produces for a header and its chunks.
pub open spec fn png_bytes(h: Header, cs: Seq<ChunkView>) -> Seq<u8> {
    signature_seq() + chunk_bytes(ihdr_seq(), h.spec_bytes()) + chunks_bytes(cs) + end_marker()
}

/// Appends `s` to `out`.
pub(crate) fn append(out: &mut Vec<u8>, s: &[u8])
    ensures
        final(out)@ == old(out)@ + s@,
{
    let mut i: usize = 0;
    while i < s.len()
        invariant
            i <= s@.len(),
            out@ == old(out)@ + s@.subrange(0, i as int),
        decreases s@.len() - i,
    {
        out.push(s[i]);
        i = i + 1;
        assert(out@ =~= old(out)@ + s@.subrange(0, i as int));
    }
    assert(s@.subrange(0, i as int) =~= s@);
}

/// A fresh vector holding `s[a..b]`.
pub(crate) fn copy_range(s: &[u8], a: usize, b: usize) -> (r: Vec<u8>)
    requires
        a <= b <= s@.len(),
    ensures
        r@ == s@.subrange(a as int, b as int),
{
    let mut r: Vec<u8> = Vec::new();
    append(&mut r, &s[a..b]);
    assert(r@ =~= s@.subrange(a as int, b as int));
    r
}

/// Tells whether the twelve bytes at `pos` are the end marker.
fn end_at(input: &[u8], pos: usize) -> (r: bool)
    requires
        pos <= input@.len(),
    ensures
        r == starts_with_end(input@.skip(pos as int)),
        r ==> pos + 12 <= input.len(),
{
    let s = Ghost(input@.skip(pos as int));
    if input.len() - pos < 12 {
        return false;
    }
    let r = input[pos] == 0 && input[pos + 1] == 0 && input[pos + 2] == 0 && input[pos + 3] == 0
        && input[pos + 4] == 0x49 && input[pos + 5] == 0x45 && input[pos + 6] == 0x4E && input[pos
        + 7] == 0x44 && input[pos + 8] == 0xAE && input[pos + 9] == 0x42 && input[pos + 10] == 0x60
        && input[pos + 11] == 0x82;
    proof {
        let t = s@.subrange(0, 12);
        assert forall|k: int| 0 <= k < 12 implies t[k] == input@[pos + k] by {}
        if r {
            assert(t =~= end_marker());
        } else if t == end_marker() {
            assert(t[0] == end_marker()[0] && t[1] == end_marker()[1] && t[2] == end_marker()[2]
                && t[3] == end_marker()[3] && t[4] == end_marker()[4] && t[5] == end_marker()[5]
                && t[6] == end_marker()[6] && t[7] == end_marker()[7] && t[8] == end_marker()[8]
                && t[9] == end_marker()[9] && t[10] == end_marker()[10] && t[11]
                == end_marker()[11]);
        }
    }
    r
}

/// CRC-32 over a chunk's tag followed by its payload.
fn chunk_crc(name: &[u8; 4], data: &[u8]) -> (r: u32)
    ensures
        r == crc32_of(name@ + data@),
{
    let mut buf: Vec<u8> = Vec::new();
    append(&mut buf, name.as_slice());
    append(&mut buf, data);
    crc32(buf.as_slice())
}

/// Reads the framed chunk at `pos`, and the position after it.
fn parse_raw_at(input: &[u8], pos: usize) -> (r: Result<(RawChunk, usize), FormatError>)
    requires
        pos <= input@.len(),
    ensures
        match parse_raw_chunk(input@.skip(pos as int)) {
            Ok((n, d)) => r matches Ok((c, next)) && c.name@ == n && c.data@ == d && next == pos
                + 12 + d.len(),
            Err(e) => r == Err::<(RawChunk, usize), FormatError>(e),
        },
        r matches Ok((c, next)) ==> pos + 12 <= next <= input@.len(),
{
    let s = Ghost(input@.skip(pos as int));
    proof {
        reveal(parse_raw_chunk);
    }
    let rem = input.len() - pos;
    if rem < 12 {
        return Err(FormatError::Truncated);
    }
    let l32 = read_u32(input, pos);
    assert(l32 == declared_len(s@));
    let l = l32 as usize;
    if rem - 12 < l {
        return Err(FormatError::Truncated);
    }
    let name: [u8; 4] = [input[pos + 4], input[pos + 5], input[pos + 6], input[pos + 7]];
    assert(name@ =~= s@.subrange(4, 8));
    let data = copy_range(input, pos + 8, pos + 8 + l);
    assert(data@ =~= s@.subrange(8, 8 + l));
    let stored = read_u32(input, pos + 8 + l);
    let computed = chunk_crc(&name, data.as_slice());
    if stored != computed {
        return Err(FormatError::ChecksumMismatch);
    }
    Ok((RawChunk { name, data }, pos + 12 + l))
}

/// Decodes the header chunk's payload.
fn decode_header_data(d: &[u8]) -> (r: Result<Header, FormatError>)
    ensures
        r == decode_header(d@),
{
    proof {
        reveal(decode_header);
    }
    if d.len() != 13 || d[10] != 0 {
        return Err(FormatError::InvalidHeader);
    }
    let colour = match Colour::from_u8(d[8], d[9]) {
        Some(c) => c,
        None => {
            return Err(FormatError::InvalidColourModel);
        },
    };
    let width = read_u32(d, 0);
    let height = read_u32(d, 4);
    if width == 0 || height == 0 || d[11] != 0 || d[12] > 1 {
        return Err(FormatError::InvalidHeader);
    }
    let interlace = InterlaceMethod::from_u8(d[12]);
    proof {
        let c = choose|c: Colour| c.bit_depth.spec_bits() == d@[8] && c.t.spec_code() == d@[9];
        assert(colour.bit_depth.spec_bits() == d@[8] && colour.t.spec_code() == d@[9]);
        assert(c.bit_depth == colour.bit_depth);
        assert(c.t == colour.t);
    }
    Ok(Header { width, height, colour, filter_method: 0, interlace })
}

/// Sorts a framed chunk by its tag.
fn classify_chunk(c: RawChunk) -> (r: Result<Chunk, FormatError>)
    ensures
        match classify(c.name@, c.data@) {
            Ok(v) => r matches Ok(ch) && ch.view() == v,
            Err(e) => r == Err::<Chunk, FormatError>(e),
        },
{
    if c.name[0] == PLTE[0] && c.name[1] == PLTE[1] && c.name[2] == PLTE[2] && c.name[3]
        == PLTE[3] {
        assert(c.name@ =~= plte_seq());
        match decode_palette(c.data.as_slice()) {
            Some(p) => Ok(Chunk::Palette(p)),
            None => Err(FormatError::InvalidPalette),
        }
    } else if c.name[0] == IDAT[0] && c.name[1] == IDAT[1] && c.name[2] == IDAT[2] && c.name[3]
        == IDAT[3] {
        assert(c.name@ =~= idat_seq());
        Ok(Chunk::Data(c.data))
    } else {
        assert(c.name@ != plte_seq() && c.name@ != idat_seq()) by {
            if c.name@ == plte_seq() {
                assert(c.name@[0] == plte_seq()[0] && c.name@[1] == plte_seq()[1]
                    && c.name@[2] == plte_seq()[2] && c.name@[3] == plte_seq()[3]);
            }
            if c.name@ == idat_seq() {
                assert(c.name@[0] == idat_seq()[0] && c.name@[1] == idat_seq()[1]
                    && c.name@[2] == idat_seq()[2] && c.name@[3] == idat_seq()[3]);
            }
        }
        Ok(Chunk::Other(c))
    }
}

/// Views a palette payload as RGB triples; `None` unless it holds whole
/// triples, at most 256 of them.
pub fn decode_palette(d: &[u8]) -> (r: Option<Palette>)
    ensures
        r is Some <==> (d@.len() % 3 == 0 && d@.len() <= 768),
        r matches Some(p) ==> palette_bytes(p@) == d@,
{
    if d.len() % 3 != 0 || d.len() > 768 {
        return None;
    }
    let n = d.len() / 3;
    let mut p: Palette = Vec::new();
    let mut i: usize = 0;
    while i < n
        invariant
            n * 3 == d@.len(),
            n <= 256,
            i <= n,
            p@.len() == i,
            forall|j: int, k: int| 0 <= j < i && 0 <= k < 3 ==> #[trigger] p@[j][k] == d@[3 * j + k],
        decreases n - i,
    {
        let e: [u8; 3] = [d[3 * i], d[3 * i + 1], d[3 * i + 2]];
        p.push(e);
        i = i + 1;
    }
    assert(palette_bytes(p@) =~= d@) by {
        assert forall|k: int| 0 <= k < d@.len() implies #[trigger] palette_bytes(p@)[k] == d@[k] by {
            let j = k / 3;
            let m = k % 3;
            assert(p@[j][m] == d@[3 * j + m]);
        }
    }
    Some(p)
}

/// Relates the chunks read so far, at `off` bytes in, to the rest of the read.
pub open spec fn after(acc: Seq<ChunkView>, r: Result<(Seq<ChunkView>, int), FormatError>, off: int)
    -> Result<(Seq<ChunkView>, int), FormatError> {
    match r {
        Ok((cs, n)) => Ok((acc + cs, off + n)),
        Err(e) => Err(e),
    }
}

/// Reads chunks from `start` through the end marker: the chunks and the
/// position after the marker.
fn parse_chunks_from(input: &[u8], start: usize) -> (r: Result<(Vec<Chunk>, usize), FormatError>)
    requires
        start <= input@.len(),
    ensures
        match parse_chunks(input@.skip(start as int)) {
            Ok((cs, n)) => r matches Ok((v, next)) && chunks_view(v@) == cs && next == start + n,
            Err(e) => r == Err::<(Vec<Chunk>, usize), FormatError>(e),
        },
        r matches Ok((v, next)) ==> next <= input@.len(),
{
    let mut pos = start;
    let mut chunks: Vec<Chunk> = Vec::new();
    loop
        invariant
            start <= pos <= input@.len(),
            parse_chunks(input@.skip(start as int)) == after(
                chunks_view(chunks@),
                parse_chunks(input@.skip(pos as int)),
                pos - start,
            ),
        decreases input@.len() - pos,
    {
        let ghost rest = input@.skip(pos as int);
        let ghost old_chunks = chunks@;
        if end_at(input, pos) {
            assert(chunks_view(chunks@) + Seq::<ChunkView>::empty() =~= chunks_view(chunks@));
            return Ok((chunks, pos + 12));
        }
        let (raw, next) = match parse_raw_at(input, pos) {
            Ok(x) => x,
            Err(e) => {
                return Err(e);
            },
        };
        let c = match classify_chunk(raw) {
            Ok(c) => c,
            Err(e) => {
                return Err(e);
            },
        };
        assert(rest.skip(next - pos) =~= input@.skip(next as int));
        chunks.push(c);
        assert(chunks_view(chunks@) =~= chunks_view(old_chunks) + seq![c.view()]);
        proof {
            match parse_chunks(input@.skip(next as int)) {
                Ok((cs, m)) => {
                    assert(chunks_view(old_chunks) + (seq![c.view()] + cs) =~= chunks_view(chunks@)
                        + cs);
                },
                Err(e) => {},
            }
        }
        pos = next;
    }
}

impl RawChunk {
    /// The CRC-32 that the stream form of this chunk carries.
    pub open spec fn spec_crc(&self) -> u32 {
        crc32_of(self.name@ + self.data@)
    }

    /// Reads one framed chunk from the front of `input`; returns what is left
    /// after it and the chunk.
    pub fn parse<'a>(input: &'a [u8]) -> (r: Result<(&'a [u8], RawChunk), FormatError>)
        ensures
            match parse_raw_chunk(input@) {
                Ok((n, d)) => r matches Ok((rest, c)) && c.name@ == n && c.data@ == d && rest@
                    == input@.skip(12 + d.len() as int),
                Err(e) => r matches Err(e2) && e2 == e,
            },
    {
        assert(input@.skip(0) =~= input@);
        match parse_raw_at(input, 0) {
            Ok((c, next)) => {
                let rest = &input[next..input.len()];
                assert(rest@ =~= input@.skip(next as int));
                Ok((rest, c))
            },
            Err(e) => Err(e),
        }
    }

    /// The end marker chunk: its tag with an empty payload.
    pub fn end() -> (r: Self)
        ensures
            r.name@ == iend_seq(),
            r.data@.len() == 0,
    {
        let r = RawChunk { name: IEND, data: Vec::new() };
        assert(r.name@ =~= iend_seq());
        r
    }

    pub fn is_end(&self) -> (r: bool)
        ensures
            r == (self.name@ == iend_seq()),
    {
        let r = self.name[0] == IEND[0] && self.name[1] == IEND[1] && self.name[2] == IEND[2]
            && self.name[3] == IEND[3];
        proof {
            if r {
                assert(self.name@ =~= iend_seq());
            } else if self.name@ == iend_seq() {
                assert(self.name@[0] == iend_seq()[0] && self.name@[1] == iend_seq()[1]
                    && self.name@[2] == iend_seq()[2] && self.name@[3] == iend_seq()[3]);
            }
        }
        r
    }

    /// Tells whether `crc` is the CRC-32 of this chunk's tag and payload.
    pub fn verify_crc32(&self, crc: u32) -> (r: bool)
        ensures
            r == (crc == self.spec_crc()),
    {
        crc == chunk_crc(&self.name, self.data.as_slice())
    }
}

/// A parsed stream: its header and the chunks between header and end marker.
#[derive(Debug)]
pub struct RawPng(pub Header, pub Vec<Chunk>);

/// Tells whether `input` begins with the signature.
fn signature_at_start(input: &[u8]) -> (r: bool)
    ensures
        r == (input@.len() >= 8 && input@.subrange(0, 8) == signature_seq()),
{
    if input.len() < 8 {
        return false;
    }
    let r = input[0] == SIGNATURE[0] && input[1] == SIGNATURE[1] && input[2] == SIGNATURE[2]
        && input[3] == SIGNATURE[3] && input[4] == SIGNATURE[4] && input[5] == SIGNATURE[5]
        && input[6] == SIGNATURE[6] && input[7] == SIGNATURE[7];
    proof {
        let t = input@.subrange(0, 8);
        let g = signature_seq();
        if r {
            assert(t =~= g);
        } else if t == g {
            assert(t[0] == g[0] && t[1] == g[1] && t[2] == g[2] && t[3] == g[3] && t[4] == g[4]
                && t[5] == g[5] && t[6] == g[6] && t[7] == g[7]);
        }
    }
    r
}

impl RawPng {
    pub open spec fn view(&self) -> (Header, Seq<ChunkView>) {
        (self.0, chunks_view(self.1@))
    }

    /// Reads a whole stream from the front of `input`; returns the bytes after
    /// the end marker and the parsed stream.
    pub fn parse<'a>(input: &'a [u8]) -> (r: Result<(&'a [u8], RawPng), FormatError>)
        ensures
            match parse_png(input@) {
                Ok((h, cs, n)) => r matches Ok((rest, png)) && png.view() == (h, cs) && rest@
                    == input@.skip(n),
                Err(e) => r matches Err(e2) && e2 == e,
            },
    {
        if !signature_at_start(input) {
            return Err(FormatError::BadSignature);
        }
        let (hc, next) = match parse_raw_at(input, 8) {
            Ok(x) => x,
            Err(e) => {
                return Err(e);
            },
        };
        if !(hc.name[0] == IHDR[0] && hc.name[1] == IHDR[1] && hc.name[2] == IHDR[2]
            && hc.name[3] == IHDR[3]) {
            proof {
                if hc.name@ == ihdr_seq() {
                    assert(hc.name@[0] == ihdr_seq()[0] && hc.name@[1] == ihdr_seq()[1]
                        && hc.name@[2] == ihdr_seq()[2] && hc.name@[3] == ihdr_seq()[3]);
                }
            }
            return Err(FormatError::InvalidHeader);
        }
        assert(hc.name@ =~= ihdr_seq());
        let header = match decode_header_data(hc.data.as_slice()) {
            Ok(h) => h,
            Err(e) => {
                return Err(e);
            },
        };
        let (chunks, end) = match parse_chunks_from(input, next) {
            Ok(x) => x,
            Err(e) => {
                return Err(e);
            },
        };
        let rest = &input[end..input.len()];
        assert(rest@ =~= input@.skip(end as int));
        Ok((rest, RawPng(header, chunks)))
    }
}

impl Header {
    /// The header chunk that encodes this header; compression is always 0.
    pub fn to_chunk(&self) -> (r: RawChunk)
        ensures
            r.name@ == ihdr_seq(),
            r.data@ == self.spec_bytes(),
    {
        let mut w: Vec<u8> = Vec::new();
        push_u32(&mut w, self.width);
        push_u32(&mut w, self.height);
        w.push(self.colour.bit_depth.bits());
        w.push(self.colour.t.code());
        w.push(0);
        w.push(self.filter_method);
        w.push(self.interlace.code());
        assert(w@ =~= self.spec_bytes());
        let r = RawChunk { name: IHDR, data: w };
        assert(r.name@ =~= ihdr_seq());
        r
    }
}

/// Serialisation into a byte buffer.
pub trait Dump {
    /// The value fits its stream form (lengths fit in 32 bits).
    spec fn dumpable(&self) -> bool;

    /// The bytes that `dump` appends.
    spec fn spec_dump(&self) -> Seq<u8>;

    fn dump(&self, out: &mut Vec<u8>)
        requires
            self.dumpable(),
        ensures
            final(out)@ == old(out)@ + self.spec_dump(),
    ;
}

/// Appends the stream form of a chunk, with its CRC-32 computed afresh.
fn write_chunk(out: &mut Vec<u8>, name: &[u8; 4], data: &[u8])
    requires
        data@.len() <= u32::MAX,
    ensures
        final(out)@ == old(out)@ + chunk_bytes(name@, data@),
{
    push_u32(out, data.len() as u32);
    append(out, name.as_slice());
    append(out, data);
    let crc = chunk_crc(name, data);
    push_u32(out, crc);
    assert(out@ =~= old(out)@ + chunk_bytes(name@, data@));
}

/// The palette flattened into its payload bytes.
pub fn palette_to_bytes(p: &Palette) -> (r: Vec<u8>)
    requires
        p@.len() <= 256,
    ensures
        r@ == palette_bytes(p@),
{
    let mut r: Vec<u8> = Vec::new();
    let mut i: usize = 0;
    while i < p.len()
        invariant
            p@.len() <= 256,
            i <= p@.len(),
            r@.len() == 3 * i,
            forall|k: int| 0 <= k < 3 * i ==> #[trigger] r@[k] == p@[k / 3][k % 3],
        decreases p@.len() - i,
    {
        let e = p[i];
        r.push(e[0]);
        r.push(e[1]);
        r.push(e[2]);
        i = i + 1;
    }
    assert(r@ =~= palette_bytes(p@));
    r
}

impl Dump for RawChunk {
    open spec fn dumpable(&self) -> bool {
        self.data@.len() <= u32::MAX
    }

    open spec fn spec_dump(&self) -> Seq<u8> {
        chunk_bytes(self.name@, self.data@)
    }

    fn dump(&self, out: &mut Vec<u8>) {
        write_chunk(out, &self.name, self.data.as_slice());
    }
}

impl Dump for Chunk {
    open spec fn dumpable(&self) -> bool {
        match self {
            Chunk::Palette(p) => p@.len() <= 256,
            Chunk::Data(d) => d@.len() <= u32::MAX,
            Chunk::Other(c) => c.data@.len() <= u32::MAX,
        }
    }

    open spec fn spec_dump(&self) -> Seq<u8> {
        chunk_view_bytes(self.view())
    }

    fn dump(&self, out: &mut Vec<u8>) {
        match self {
            Chunk::Palette(p) => {
                let b = palette_to_bytes(p);
                assert(PLTE@ =~= plte_seq());
                write_chunk(out, &PLTE, b.as_slice());
            },
            Chunk::Data(d) => {
                assert(IDAT@ =~= idat_seq());
                write_chunk(out, &IDAT, d.as_slice());
            },
            Chunk::Other(c) => {
                write_chunk(out, &c.name, c.data.as_slice());
            },
        }
    }
}

pub proof fn lemma_chunks_bytes_push(a: Seq<ChunkView>, x: ChunkView)
    ensures
        chunks_bytes(a.push(x)) == chunks_bytes(a) + chunk_view_bytes(x),
    decreases a.len(),
{
    if a.len() == 0 {
        assert(a.push(x).skip(1) =~= Seq::<ChunkView>::empty());
        assert(a.push(x)[0] == x);
        assert(chunks_bytes(a.push(x).skip(1)) == Seq::<u8>::empty());
        assert(chunks_bytes(a) == Seq::<u8>::empty());
        assert(chunks_bytes(a.push(x)) =~= chunks_bytes(a) + chunk_view_bytes(x));
    } else {
        assert(a.push(x).skip(1) =~= a.skip(1).push(x));
        assert(a.push(x)[0] == a[0]);
        lemma_chunks_bytes_push(a.skip(1), x);
        assert(chunks_bytes(a.push(x)) == chunk_view_bytes(a[0]) + chunks_bytes(a.skip(1).push(x)));
        assert(chunks_bytes(a) == chunk_view_bytes(a[0]) + chunks_bytes(a.skip(1)));
        assert(chunks_bytes(a.push(x)) =~= chunks_bytes(a) + chunk_view_bytes(x));
    }
}

impl Dump for RawPng {
    open spec fn dumpable(&self) -> bool {
        forall|i: int| 0 <= i < self.1@.len() ==> (#[trigger] self.1@[i]).dumpable()
    }

    open spec fn spec_dump(&self) -> Seq<u8> {
        png_bytes(self.0, chunks_view(self.1@))
    }

    fn dump(&self, out: &mut Vec<u8>) {
        append(out, SIGNATURE.as_slice());
        assert(SIGNATURE@ =~= signature_seq());
        let h = self.0.to_chunk();
        h.dump(out);
        let ghost mid = out@;
        let mut i: usize = 0;
        while i < self.1.len()
            invariant
                self.dumpable(),
                i <= self.1@.len(),
                out@ == mid + chunks_bytes(chunks_view(self.1@).take(i as int)),
            decreases self.1@.len() - i,
        {
            self.1[i].dump(out);
            proof {
                lemma_chunks_bytes_push(chunks_view(self.1@).take(i as int), self.1@[i as int].view());
                assert(chunks_view(self.1@).take(i + 1) =~= chunks_view(self.1@).take(i as int).push(
                    self.1@[i as int].view(),
                ));
            }
            i = i + 1;
        }
        assert(chunks_view(self.1@).take(i as int) =~= chunks_view(self.1@));
        let end: [u8; 12] = [0, 0, 0, 0, IEND[0], IEND[1], IEND[2], IEND[3], IEND_CRC[0], IEND_CRC[1], IEND_CRC[2], IEND_CRC[3]];
        append(out, end.as_slice());
        assert(end@ =~= end_marker());
        assert(out@ =~= old(out)@ + png_bytes(self.0, chunks_view(self.1@)));
    }
}

/// A chunk that the writer can emit and the reader reads back as the same chunk.
pub open spec fn chunk_view_wf(c: ChunkView) -> bool {
    match c {
        ChunkView::Palette(b) => b.len() % 3 == 0 && b.len() <= 768,
        ChunkView::Data(d) => d.len() <= u32::MAX,
        ChunkView::Other(n, d) => n.len() == 4 && n != plte_seq() && n != idat_seq() && n
            != iend_seq() && d.len() <= u32::MAX,
    }
}

pub open spec fn chunk_view_name(c: ChunkView) -> Seq<u8> {
    match c {
        ChunkView::Palette(_) => plte_seq(),
        ChunkView::Data(_) => idat_seq(),
        ChunkView::Other(n, _) => n,
    }
}

pub open spec fn chunk_view_data(c: ChunkView) -> Seq<u8> {
    match c {
        ChunkView::Palette(b) => b,
        ChunkView::Data(d) => d,
        ChunkView::Other(_, d) => d,
    }
}

proof fn lemma_parse_chunk_bytes(n: Seq<u8>, d: Seq<u8>, rest: Seq<u8>)
    requires
        n.len() == 4,
        d.len() <= u32::MAX,
    ensures
        parse_raw_chunk(chunk_bytes(n, d) + rest) == Ok::<(Seq<u8>, Seq<u8>), FormatError>((n, d)),
        (chunk_bytes(n, d) + rest).subrange(4, 8) == n,
        chunk_bytes(n, d).len() == 12 + d.len(),
{
    reveal(parse_raw_chunk);
    let s = chunk_bytes(n, d) + rest;
    let l = d.len() as u32;
    let c = crc32_of(n + d);
    lemma_be_u32_bytes(l);
    lemma_be_u32_bytes(c);
    assert(s[0] == u32_bytes(l)[0] && s[1] == u32_bytes(l)[1] && s[2] == u32_bytes(l)[2] && s[3]
        == u32_bytes(l)[3]);
    assert(declared_len(s) == d.len());
    let li = d.len() as int;
    assert(s[8 + li] == u32_bytes(c)[0] && s[9 + li] == u32_bytes(c)[1] && s[10 + li]
        == u32_bytes(c)[2] && s[11 + li] == u32_bytes(c)[3]);
    assert(s.subrange(4, 8) =~= n);
    assert(s.subrange(8, 8 + li) =~= d);
}

proof fn lemma_chunk_step(c: ChunkView, tail: Seq<u8>)
    requires
        chunk_view_wf(c),
    ensures
        !starts_with_end(chunk_view_bytes(c) + tail),
        parse_raw_chunk(chunk_view_bytes(c) + tail) == Ok::<(Seq<u8>, Seq<u8>), FormatError>(
            (chunk_view_name(c), chunk_view_data(c)),
        ),
        classify(chunk_view_name(c), chunk_view_data(c)) == Ok::<ChunkView, FormatError>(c),
        chunk_view_bytes(c).len() == 12 + chunk_view_data(c).len(),
{
    let n = chunk_view_name(c);
    let d = chunk_view_data(c);
    assert(chunk_view_bytes(c) == chunk_bytes(n, d));
    let s = chunk_bytes(n, d) + tail;
    assert(n.len() == 4 && d.len() <= u32::MAX);
    lemma_parse_chunk_bytes(n, d, tail);
    assert(n != iend_seq()) by {
        assert(plte_seq()[0] != iend_seq()[0]);
        assert(idat_seq()[1] != iend_seq()[1]);
    }
    assert(!starts_with_end(s)) by {
        if starts_with_end(s) {
            assert(s.subrange(4, 8) =~= s.subrange(0, 12).subrange(4, 8));
            assert(end_marker().subrange(4, 8) =~= iend_seq());
        }
    }
    assert(classify(n, d) == Ok::<ChunkView, FormatError>(c)) by {
        assert(plte_seq()[0] != idat_seq()[0]);
    }
}

proof fn lemma_parse_chunks_bytes(cs: Seq<ChunkView>, rest: Seq<u8>)
    requires
        forall|i: int| 0 <= i < cs.len() ==> chunk_view_wf(#[trigger] cs[i]),
    ensures
        parse_chunks(chunks_bytes(cs) + end_marker() + rest) == Ok::<
            (Seq<ChunkView>, int),
            FormatError,
        >((cs, chunks_bytes(cs).len() as int + 12)),
    decreases cs.len(),
{
    let s = chunks_bytes(cs) + end_marker() + rest;
    if cs.len() == 0 {
        assert(s.subrange(0, 12) =~= end_marker());
        assert(cs =~= Seq::<ChunkView>::empty());
        assert(chunks_bytes(cs).len() == 0);
    } else {
        let c = cs[0];
        let d = chunk_view_data(c);
        let tail = chunks_bytes(cs.skip(1)) + end_marker() + rest;
        assert(s =~= chunk_view_bytes(c) + tail);
        lemma_chunk_step(c, tail);
        assert(s.skip(12 + d.len() as int) =~= tail);
        assert(forall|i: int| 0 <= i < cs.skip(1).len() ==> cs.skip(1)[i] == cs[i + 1]);
        lemma_parse_chunks_bytes(cs.skip(1), rest);
        assert(seq![c] + cs.skip(1) =~= cs);
        assert(chunks_bytes(cs) == chunk_view_bytes(c) + chunks_bytes(cs.skip(1)));
        assert(parse_chunks(s) == Ok::<(Seq<ChunkView>, int), FormatError>(
            (seq![c] + cs.skip(1), 12 + d.len() as int + chunks_bytes(cs.skip(1)).len() as int + 12),
        ));
    }
}

proof fn lemma_decode_header_bytes(h: Header)
    requires
        h.wf(),
    ensures
        decode_header(h.spec_bytes()) == Ok::<Header, FormatError>(h),
{
    reveal(decode_header);
    let d = h.spec_bytes();
    lemma_be_u32_bytes(h.width);
    lemma_be_u32_bytes(h.height);
    assert(d[0] == u32_bytes(h.width)[0] && d[1] == u32_bytes(h.width)[1] && d[2] == u32_bytes(
        h.width,
    )[2] && d[3] == u32_bytes(h.width)[3]);
    assert(d[4] == u32_bytes(h.height)[0] && d[5] == u32_bytes(h.height)[1] && d[6]
        == u32_bytes(h.height)[2] && d[7] == u32_bytes(h.height)[3]);
    assert(d[8] == h.colour.bit_depth.spec_bits());
    assert(d[9] == h.colour.t.spec_code());
    assert(d[10] == 0 && d[11] == h.filter_method && d[12] == h.interlace.spec_code());
    let c = choose|c: Colour| c.bit_depth.spec_bits() == d[8] && c.t.spec_code() == d[9];
    assert(c.bit_depth == h.colour.bit_depth);
    assert(c.t == h.colour.t);
}

/// Writing a header and well-formed chunks and reading the stream back, with
/// any bytes after it, gives the same header and chunks and takes exactly the
/// written bytes.
pub proof fn lemma_raw_round_trip(h: Header, cs: Seq<ChunkView>, rest: Seq<u8>)
    requires
        h.wf(),
        forall|i: int| 0 <= i < cs.len() ==> chunk_view_wf(#[trigger] cs[i]),
    ensures
        parse_png(png_bytes(h, cs) + rest) == Ok::<(Header, Seq<ChunkView>, int), FormatError>(
            (h, cs, png_bytes(h, cs).len() as int),
        ),
{
    let s = png_bytes(h, cs) + rest;
    let tail = chunks_bytes(cs) + end_marker() + rest;
    assert(s.subrange(0, 8) =~= signature_seq());
    assert(s.skip(8) =~= chunk_bytes(ihdr_seq(), h.spec_bytes()) + tail);
    lemma_parse_chunk_bytes(ihdr_seq(), h.spec_bytes(), tail);
    lemma_decode_header_bytes(h);
    assert(s.skip(20 + h.spec_bytes().len() as int) =~= tail);
    lemma_parse_chunks_bytes(cs, rest);
}

/// A chunk whose payload was altered after its CRC-32 was written is rejected
/// with `ChecksumMismatch` whenever the alteration changes the CRC-32 of tag
/// and payload (as flipping any single bit does).
pub proof fn lemma_altered_payload_rejected(n: Seq<u8>, d: Seq<u8>, altered: Seq<u8>, rest: Seq<u8>)
    requires
        n.len() == 4,
        d.len() <= u32::MAX,
        altered.len() == d.len(),
        crc32_of(n + altered) != crc32_of(n + d),
    ensures
        parse_raw_chunk(
            u32_bytes(d.len() as u32) + n + altered + u32_bytes(crc32_of(n + d)) + rest,
        ) == Err::<(Seq<u8>, Seq<u8>), FormatError>(FormatError::ChecksumMismatch),
{
    reveal(parse_raw_chunk);
    let s = u32_bytes(d.len() as u32) + n + altered + u32_bytes(crc32_of(n + d)) + rest;
    let l = d.len() as u32;
    let c = crc32_of(n + d);
    lemma_be_u32_bytes(l);
    lemma_be_u32_bytes(c);
    assert(s[0] == u32_bytes(l)[0] && s[1] == u32_bytes(l)[1] && s[2] == u32_bytes(l)[2] && s[3]
        == u32_bytes(l)[3]);
    let li = d.len() as int;
    assert(s[8 + li] == u32_bytes(c)[0] && s[9 + li] == u32_bytes(c)[1] && s[10 + li]
        == u32_bytes(c)[2] && s[11 + li] == u32_bytes(c)[3]);
    assert(s.subrange(4, 8) =~= n);
    assert(s.subrange(8, 8 + li) =~= altered);
}

} // verus!

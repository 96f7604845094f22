//! A PNG container codec with a small scanline transform pipeline.
use vstd::prelude::*;

pub mod raw;
pub mod transform;
pub mod zlib;

use raw::{
    BitDepth, Chunk, ChunkView, FormatError, Header, InterlaceMethod, Palette, RawPng, chunks_view, palette_bytes,
    parse_png, png_bytes, MAX_DATA_CHUNK, chunk_view_wf, lemma_raw_round_trip, Dump,
};
use zlib::{deflate_of, inflate_of, zlib_compress, zlib_decompress};

verus! {

/// The data payloads of the chunks, concatenated in order.
pub open spec fn data_concat(cs: Seq<ChunkView>) -> Seq<u8>
    decreases cs.len(),
{
    if cs.len() == 0 {
        Seq::empty()
    } else {
        match cs[0] {
            ChunkView::Data(d) => d + data_concat(cs.skip(1)),
            _ => data_concat(cs.skip(1)),
        }
    }
}

/// The bytes of the first palette chunk, if any.
pub open spec fn first_palette(cs: Seq<ChunkView>) -> Option<Seq<u8>>
    decreases cs.len(),
{
    if cs.len() == 0 {
        None
    } else {
        match cs[0] {
            ChunkView::Palette(b) => Some(b),
            _ => first_palette(cs.skip(1)),
        }
    }
}

/// What a stream decodes to: header, palette bytes and scanline bytes.
pub open spec fn decode_document(s: Seq<u8>) -> Result<
    (Header, Option<Seq<u8>>, Seq<u8>),
    FormatError,
> {
    match parse_png(s) {
        Err(e) => Err(e),
        Ok((h, cs, _)) => match inflate_of(data_concat(cs)) {
            None => Err(FormatError::DecompressionFailed),
            Some(d) => document_outcome(h, first_palette(cs), d),
        },
    }
}

/// Bytes of each row of an image with header `h`, its filter-type byte
/// included: `width / (16 / bit_depth) + 1` sample bytes after that byte.
pub open spec fn stride_of(h: Header) -> int {
    h.width as int / (16int / (h.colour.bit_depth.spec_bits() as int)) + 2
}

/// Every row of `d` that starts inside it has filter-type byte 0.
pub open spec fn filters_zero(h: Header, d: Seq<u8>) -> bool {
    forall|r: int|
        0 <= r < h.height && row_pos(stride_of(h), r, 0) < d.len() ==> d[#[trigger] row_pos(
            stride_of(h),
            r,
            0,
        )] == 0
}

/// The decoded image, once its layout is known to be one the decoder reads:
/// not interlaced, and every row unfiltered.
pub open spec fn document_outcome(h: Header, pb: Option<Seq<u8>>, d: Seq<u8>) -> Result<
    (Header, Option<Seq<u8>>, Seq<u8>),
    FormatError,
> {
    if h.interlace == InterlaceMethod::Adam7 || !filters_zero(h, d) {
        Err(FormatError::Unsupported)
    } else {
        Ok((h, pb, d))
    }
}

/// Tells whether every row of `d` that starts inside it has filter-type byte 0.
pub fn filter_bytes_zero(h: &Header, d: &[u8]) -> (r: bool)
    ensures
        r == filters_zero(*h, d@),
{
    let height = h.height as usize;
    let n = d.len();
    // samples per two bytes
    let per: usize = match h.colour.bit_depth {
        BitDepth::B1 => 16,
        BitDepth::B2 => 8,
        BitDepth::B4 => 4,
        BitDepth::B8 => 2,
        BitDepth::B16 => 1,
    };
    let w = h.width as usize / per;
    if n < 2 || w > n - 2 {
        // no row but the first starts inside `d`
        proof {
            assert forall|r: int|
                0 <= r < h.height && row_pos(stride_of(*h), r, 0) < n implies r == 0 by {
                if r > 0 {
                    assert(r * stride_of(*h) >= stride_of(*h)) by (nonlinear_arith)
                        requires
                            r >= 1,
                            stride_of(*h) >= 0,
                    ;
                }
            }
            assert(row_pos(stride_of(*h), 0, 0) == 0);
        }
        return height == 0 || n == 0 || d[0] == 0;
    }
    let s = w + 2;
    let ghost si = s as int;
    assert(si == stride_of(*h));
    let mut pos: usize = 0;
    let mut r: usize = 0;
    while r < height
        invariant
            height == h.height,
            n == d@.len(),
            si == s,
            si == stride_of(*h),
            s <= n,
            s >= 2,
            r <= height,
            pos == row_pos(si, r as int, 0),
            pos <= n,
            forall|k: int| 0 <= k < r ==> #[trigger] d@[row_pos(si, k, 0)] == 0,
            forall|k: int| 0 <= k < r ==> row_pos(si, k, 0) < n,
        decreases height - r,
    {
        proof {
            assert(row_pos(si, r as int + 1, 0) == pos + s) by (nonlinear_arith)
                requires
                    pos == row_pos(si, r as int, 0),
                    si == s,
            ;
        }
        if pos == n || d[pos] != 0 {
            proof {
                if pos != n {
                    assert(d@[row_pos(stride_of(*h), r as int, 0)] != 0);
                }
                if pos == n {
                    assert forall|k: int|
                        0 <= k < h.height && row_pos(si, k, 0) < n implies d@[row_pos(si, k, 0)] == 0 by {
                        if k > r {
                            lemma_row_pos_order(si, r as int, 0, k, 0);
                        }
                    }
                }
            }
            return pos == n;
        }
        if n - pos <= s {
            proof {
                assert forall|k: int|
                    0 <= k < h.height && row_pos(si, k, 0) < n implies d@[row_pos(si, k, 0)] == 0 by {
                    if k > r + 1 {
                        lemma_row_pos_order(si, r as int + 1, 0, k, 0);
                    }
                }
            }
            return true;
        }
        pos = pos + s;
        r = r + 1;
    }
    true
}

/// `cs` is a chunk sequence that the encoder may write for palette bytes `pb`
/// and scanline bytes `d`: the palette first if there is one, then data chunks
/// of 1 to 4096 bytes whose concatenation inflates to `d`.
pub open spec fn encodes(cs: Seq<ChunkView>, pb: Option<Seq<u8>>, d: Seq<u8>) -> bool {
    let k: int = if pb is Some { 1 } else { 0 };
    &&& cs.len() >= k
    &&& (pb matches Some(b) ==> cs[0] == ChunkView::Palette(b))
    &&& forall|i: int|
        k <= i < cs.len() ==> (#[trigger] cs[i] matches ChunkView::Data(x) && 0 < x.len()
            <= MAX_DATA_CHUNK)
    &&& inflate_of(data_concat(cs)) == Some(d)
}

proof fn lemma_data_concat_push(a: Seq<ChunkView>, x: ChunkView)
    ensures
        data_concat(a.push(x)) == data_concat(a) + match x {
            ChunkView::Data(d) => d,
            _ => Seq::empty(),
        },
    decreases a.len(),
{
    assert(a.push(x)[0] == if a.len() == 0 { x } else { a[0] });
    if a.len() == 0 {
        assert(a.push(x).skip(1) =~= Seq::<ChunkView>::empty());
        assert(data_concat(a.push(x).skip(1)) == Seq::<u8>::empty());
        assert(data_concat(a) == Seq::<u8>::empty());
    } else {
        assert(a.push(x).skip(1) =~= a.skip(1).push(x));
        lemma_data_concat_push(a.skip(1), x);
    }
    assert(data_concat(a.push(x)) =~= data_concat(a) + match x {
        ChunkView::Data(d) => d,
        _ => Seq::empty(),
    });
}

proof fn lemma_first_palette_of_data(cs: Seq<ChunkView>)
    requires
        forall|i: int| 0 <= i < cs.len() ==> (#[trigger] cs[i]) is Data,
    ensures
        first_palette(cs) is None,
    decreases cs.len(),
{
    if cs.len() > 0 {
        assert(forall|i: int| 0 <= i < cs.skip(1).len() ==> cs.skip(1)[i] == cs[i + 1]);
        lemma_first_palette_of_data(cs.skip(1));
    }
}

/// Decoding what the encoder writes gives back the header, the palette and the
/// scanline bytes, for every image whose layout the decoder reads (not
/// interlaced, every row unfiltered); any other is refused as `Unsupported`.
pub proof fn lemma_document_round_trip(
    h: Header,
    pb: Option<Seq<u8>>,
    d: Seq<u8>,
    cs: Seq<ChunkView>,
)
    requires
        h.wf(),
        pb matches Some(b) ==> b.len() % 3 == 0 && b.len() <= 768,
        encodes(cs, pb, d),
    ensures
        decode_document(png_bytes(h, cs)) == document_outcome(h, pb, d),
{
    let k: int = if pb is Some { 1 } else { 0 };
    assert forall|i: int| 0 <= i < cs.len() implies chunk_view_wf(#[trigger] cs[i]) by {
        if i >= k {
            assert(cs[i] matches ChunkView::Data(x) && 0 < x.len() <= MAX_DATA_CHUNK);
        }
    }
    lemma_raw_round_trip(h, cs, Seq::empty());
    assert(png_bytes(h, cs) + Seq::<u8>::empty() =~= png_bytes(h, cs));
    if pb is Some {
        assert(first_palette(cs) == pb);
    } else {
        lemma_first_palette_of_data(cs);
    }
}

/// A decoded image: header, optional palette, and the inflated scanline bytes
/// (each row a filter-type byte followed by its packed samples).
#[derive(Debug)]
pub struct Png {
    pub header: Header,
    pub palette: Option<Palette>,
    pub data: Vec<u8>,
}

/// A copy of a palette.
pub fn copy_palette(p: &Palette) -> (r: Palette)
    ensures
        r@ == p@,
{
    let mut r: Palette = Vec::new();
    let mut i: usize = 0;
    while i < p.len()
        invariant
            i <= p@.len(),
            r@ == p@.subrange(0, i as int),
        decreases p@.len() - i,
    {
        r.push(p[i]);
        i = i + 1;
        assert(r@ =~= p@.subrange(0, i as int));
    }
    assert(p@.subrange(0, i as int) =~= p@);
    r
}

pub open spec fn palette_view(p: Option<Palette>) -> Option<Seq<u8>> {
    match p {
        Some(v) => Some(palette_bytes(v@)),
        None => None,
    }
}

impl Png {
    /// The header is one the codec accepts and the palette has at most 256 entries.
    pub open spec fn wf(&self) -> bool {
        &&& self.header.wf()
        &&& (self.palette matches Some(p) ==> p@.len() <= 256)
    }

    /// Builds the image from a parsed stream: the first palette chunk, and the
    /// data chunks concatenated and inflated. Other chunks are dropped. An
    /// interlaced image, or one with a filtered row, is refused.
    pub fn from_raw(raw: RawPng) -> (r: Result<Png, FormatError>)
        ensures
            match inflate_of(data_concat(raw.view().1)) {
                None => r == Err::<Png, FormatError>(FormatError::DecompressionFailed),
                Some(d) => match document_outcome(raw.0, first_palette(raw.view().1), d) {
                    Ok(_) => r matches Ok(p) && p.header == raw.0 && palette_view(p.palette)
                        == first_palette(raw.view().1) && p.data@ == d,
                    Err(e) => r == Err::<Png, FormatError>(e),
                },
            },
    {
        let ghost cs = raw.view().1;
        let mut raw_data: Vec<u8> = Vec::new();
        let mut palette: Option<Palette> = None;
        let mut i: usize = 0;
        assert(cs.skip(0) =~= cs);
        assert(raw_data@ + data_concat(cs) =~= data_concat(cs));
        while i < raw.1.len()
            invariant
                cs == chunks_view(raw.1@),
                i <= raw.1@.len(),
                data_concat(cs) == raw_data@ + data_concat(cs.skip(i as int)),
                first_palette(cs) == if palette is Some {
                    palette_view(palette)
                } else {
                    first_palette(cs.skip(i as int))
                },
            decreases raw.1@.len() - i,
        {
            let ghost rest = cs.skip(i as int);
            assert(rest[0] == raw.1@[i as int].view());
            assert(rest.skip(1) =~= cs.skip(i + 1));
            match &raw.1[i] {
                Chunk::Palette(p) => {
                    if palette.is_none() {
                        palette = Some(copy_palette(p));
                    }
                },
                Chunk::Data(d) => {
                    let ghost before = raw_data@;
                    raw::append(&mut raw_data, d.as_slice());
                    assert(before + (d@ + data_concat(cs.skip(i + 1))) =~= raw_data@ + data_concat(
                        cs.skip(i + 1),
                    ));
                },
                Chunk::Other(_) => {},
            }
            i = i + 1;
        }
        assert(cs.skip(i as int) =~= Seq::<ChunkView>::empty());
        assert(raw_data@ + Seq::<u8>::empty() =~= raw_data@);
        match zlib_decompress(raw_data.as_slice()) {
            Some(data) => {
                if matches!(raw.0.interlace, InterlaceMethod::Adam7) || !filter_bytes_zero(
                    &raw.0,
                    data.as_slice(),
                ) {
                    Err(FormatError::Unsupported)
                } else {
                    Ok(Png { header: raw.0, palette, data })
                }
            },
            None => Err(FormatError::DecompressionFailed),
        }
    }
    /// Builds the chunk sequence for this image: the palette chunk if there is
    /// one, then the deflated scanline bytes cut into data chunks of at most
    /// 4096 bytes.
    pub fn to_raw(&self) -> (r: Result<RawPng, FormatError>)
        ensures
            match r {
                Ok(raw) => raw.0 == self.header && encodes(
                    raw.view().1,
                    palette_view(self.palette),
                    self.data@,
                ) && ((self.palette matches Some(p) ==> p@.len() <= 256) ==> raw.dumpable()),
                Err(e) => e == FormatError::CompressionFailed,
            },
            r is Ok <==> deflate_of(self.data@) is Some,
    {
        let compressed = match zlib_compress(self.data.as_slice()) {
            Some(c) => c,
            None => {
                return Err(FormatError::CompressionFailed);
            },
        };
        let mut chunks: Vec<Chunk> = Vec::new();
        match &self.palette {
            Some(p) => {
                chunks.push(Chunk::Palette(copy_palette(p)));
            },
            None => {},
        }
        let ghost k: int = chunks@.len() as int;
        let ghost pb = palette_view(self.palette);
        proof {
            assert(data_concat(chunks_view(chunks@)) =~= Seq::<u8>::empty()) by {
                if k == 1 {
                    assert(chunks_view(chunks@).skip(1) =~= Seq::<ChunkView>::empty());
                    assert(data_concat(chunks_view(chunks@).skip(1)) == Seq::<u8>::empty());
                }
            }
        }
        let mut pos: usize = 0;
        while pos < compressed.len()
            invariant
                pos <= compressed@.len(),
                k == (if pb is Some { 1int } else { 0int }),
                chunks@.len() >= k,
                pb matches Some(b) ==> chunks_view(chunks@)[0] == ChunkView::Palette(b),
                forall|i: int|
                    k <= i < chunks@.len() ==> (#[trigger] chunks_view(chunks@)[i] matches ChunkView::Data(
                        x,
                    ) && 0 < x.len() <= MAX_DATA_CHUNK),
                data_concat(chunks_view(chunks@)) == compressed@.subrange(0, pos as int),
            decreases compressed@.len() - pos,
        {
            let end = if compressed.len() - pos > MAX_DATA_CHUNK {
                pos + MAX_DATA_CHUNK
            } else {
                compressed.len()
            };
            let piece = raw::copy_range(compressed.as_slice(), pos, end);
            let ghost before = chunks@;
            let c = Chunk::Data(piece);
            chunks.push(c);
            proof {
                assert(chunks_view(chunks@) =~= chunks_view(before).push(c.view()));
                if before.len() > 0 {
                    assert(chunks_view(chunks@)[0] == chunks_view(before)[0]);
                }
                lemma_data_concat_push(chunks_view(before), c.view());
                assert(compressed@.subrange(0, pos as int) + piece@ =~= compressed@.subrange(
                    0,
                    end as int,
                ));
            }
            pos = end;
        }
        assert(compressed@.subrange(0, pos as int) =~= compressed@);
        let raw = RawPng(self.header, chunks);
        proof {
            if self.palette is Some {
                if self.palette->0@.len() <= 256 {
                    assert forall|i: int| 0 <= i < raw.1@.len() implies (#[trigger] raw.1@[i]).dumpable() by {
                        if i >= k {
                            assert(chunks_view(raw.1@)[i] matches ChunkView::Data(x) && 0 < x.len() <= MAX_DATA_CHUNK);
                        } else {
                            assert(chunks_view(raw.1@)[0] == raw.1@[0].view());
                            match raw.1@[0] {
                                Chunk::Palette(q) => {
                                    assert(palette_bytes(q@).len() == palette_bytes(
                                        self.palette->0@,
                                    ).len());
                                },
                                _ => {},
                            }
                        }
                    }
                }
            } else {
                assert forall|i: int| 0 <= i < raw.1@.len() implies (#[trigger] raw.1@[i]).dumpable() by {
                    assert(chunks_view(raw.1@)[i] matches ChunkView::Data(x) && 0 < x.len() <= MAX_DATA_CHUNK);
                }
            }
        }
        Ok(raw)
    }

    /// Parses a whole stream and decodes the image in it.
    pub fn decode(input: &[u8]) -> (r: Result<Png, FormatError>)
        ensures
            match decode_document(input@) {
                Ok((h, pb, d)) => r matches Ok(p) && p.header == h && palette_view(p.palette) == pb
                    && p.data@ == d,
                Err(e) => r matches Err(e2) && e2 == e,
            },
    {
        match RawPng::parse(input) {
            Ok((_, raw)) => Png::from_raw(raw),
            Err(e) => Err(e),
        }
    }

    /// Writes the image as a stream; decoding the result gives back this image
    /// where its layout is one the decoder reads.
    pub fn encode(&self) -> (r: Result<Vec<u8>, FormatError>)
        requires
            self.wf(),
        ensures
            match r {
                Ok(b) => decode_document(b@) == document_outcome(
                    self.header,
                    palette_view(self.palette),
                    self.data@,
                ),
                Err(e) => e == FormatError::CompressionFailed,
            },
            r is Ok <==> deflate_of(self.data@) is Some,
    {
        let raw = self.to_raw()?;
        let mut out: Vec<u8> = Vec::new();
        raw.dump(&mut out);
        proof {
            assert(out@ =~= png_bytes(raw.0, raw.view().1));
            lemma_document_round_trip(self.header, palette_view(self.palette), self.data@, raw.view().1);
        }
        Ok(out)
    }
}

/// Index of byte `j` of row `r` in a buffer whose rows are `stride` bytes long.
pub open spec fn row_pos(stride: int, r: int, j: int) -> int {
    r * stride + j
}

pub proof fn lemma_row_pos_order(stride: int, r1: int, j1: int, r2: int, j2: int)
    requires
        0 <= j1 < stride,
        0 <= j2 < stride,
        0 <= r1 < r2,
    ensures
        0 <= row_pos(stride, r1, j1) < row_pos(stride, r2, j2),
{
    assert(r1 * stride + stride <= r2 * stride) by (nonlinear_arith)
        requires
            r1 < r2,
            stride > 0,
    ;
    assert(0 <= r1 * stride) by (nonlinear_arith)
        requires
            0 <= r1,
            stride > 0,
    ;
}

/// The payload bytes of every row, concatenated in order.
pub open spec fn concat_rows(rows: Seq<Seq<u8>>) -> Seq<u8>
    decreases rows.len(),
{
    if rows.len() == 0 {
        Seq::empty()
    } else {
        concat_rows(rows.drop_last()) + rows.last()
    }
}

impl Png {
    /// Payload bytes of each row (its samples, after the filter-type byte):
    /// `width / (16 / bit_depth) + 1`.
    pub open spec fn row_payload_len(&self) -> int {
        stride_of(self.header) - 1
    }

    /// Bytes of each row, its filter-type byte included.
    pub open spec fn row_stride(&self) -> int {
        self.row_payload_len() + 1
    }

    /// The buffer holds all `height` rows.
    pub open spec fn rows_fit(&self) -> bool {
        self.header.height * self.row_stride() <= self.data@.len()
    }

    /// The payload of row `r`.
    pub open spec fn row(&self, r: int) -> Seq<u8> {
        self.data@.subrange(row_pos(self.row_stride(), r, 1), row_pos(self.row_stride(), r + 1, 0))
    }

    pub open spec fn rows(&self) -> Seq<Seq<u8>> {
        Seq::new(self.header.height as nat, |r: int| self.row(r))
    }

    fn stride(&self) -> (s: usize)
        requires
            self.rows_fit(),
            self.header.height > 0,
        ensures
            s == self.row_stride(),
            s >= 2,
    {
        let bits = self.header.colour.bit_depth.bits() as usize;
        let per = 16 / bits;
        proof {
            assert(self.header.height * self.row_stride() >= self.row_stride()) by (nonlinear_arith)
                requires
                    self.header.height > 0,
                    self.row_stride() >= 0,
            ;
        }
        let n = self.data.len();
        let w = self.header.width as usize / per;
        assert(w + 2 <= n);
        w + 2
    }

    /// The payload of each row, in order.
    pub fn iterate_rows(&self) -> (r: Vec<Vec<u8>>)
        requires
            self.rows_fit(),
        ensures
            r@.len() == self.header.height,
            forall|i: int| 0 <= i < self.header.height ==> (#[trigger] r@[i])@ == self.row(i),
    {
        let h = self.header.height as usize;
        let mut out: Vec<Vec<u8>> = Vec::new();
        if h == 0 {
            return out;
        }
        let s = self.stride();
        let n = self.data.len();
        let mut row: usize = 0;
        while row < h
            invariant
                h == self.header.height,
                s == self.row_stride(),
                s >= 2,
                self.rows_fit(),
                n == self.data@.len(),
                row <= h,
                out@.len() == row,
                forall|i: int| 0 <= i < row ==> (#[trigger] out@[i])@ == self.row(i),
            decreases h - row,
        {
            proof {
                assert(row * s + s <= h * s) by (nonlinear_arith)
                    requires
                        row < h,
                ;
            }
            let base = row * s;
            out.push(raw::copy_range(self.data.as_slice(), base + 1, base + s));
            proof {
                assert(row_pos(s as int, row as int + 1, 0) == base + s) by (nonlinear_arith)
                    requires
                        base == row * s,
                ;
            }
            row = row + 1;
        }
        out
    }

    /// All row payloads concatenated, without the filter-type bytes.
    pub fn extract_pixels(&self) -> (r: Vec<u8>)
        requires
            self.rows_fit(),
        ensures
            r@ == concat_rows(self.rows()),
    {
        let rows = self.iterate_rows();
        let mut ret: Vec<u8> = Vec::new();
        let mut i: usize = 0;
        while i < rows.len()
            invariant
                rows@.len() == self.header.height,
                forall|k: int| 0 <= k < self.header.height ==> (#[trigger] rows@[k])@ == self.row(k),
                i <= rows@.len(),
                ret@ == concat_rows(self.rows().take(i as int)),
            decreases rows@.len() - i,
        {
            raw::append(&mut ret, rows[i].as_slice());
            assert(self.rows().take(i + 1).drop_last() =~= self.rows().take(i as int));
            i = i + 1;
        }
        assert(self.rows().take(i as int) =~= self.rows());
        ret
    }

    /// Replaces every sample byte `b` of every row by `f(b)`; the filter-type
    /// bytes and the bytes after the last row stay as they are.
    pub fn iterate_rows_mut<F: Fn(u8) -> u8>(&mut self, f: F)
        requires
            old(self).rows_fit(),
            forall|b: u8| f.requires((b,)),
        ensures
            final(self).header == old(self).header,
            final(self).palette == old(self).palette,
            final(self).data@.len() == old(self).data@.len(),
            forall|r: int, j: int|
                0 <= r < old(self).header.height && 1 <= j < old(self).row_stride() ==> f.ensures(
                    (old(self).data@[row_pos(old(self).row_stride(), r, j)],),
                    #[trigger] final(self).data@[row_pos(old(self).row_stride(), r, j)],
                ),
            forall|r: int|
                0 <= r < old(self).header.height ==> #[trigger] final(self).data@[row_pos(
                    old(self).row_stride(),
                    r,
                    0,
                )] == old(self).data@[row_pos(old(self).row_stride(), r, 0)],
            forall|k: int|
                old(self).header.height * old(self).row_stride() <= k < old(self).data@.len()
                    ==> #[trigger] final(self).data@[k] == old(self).data@[k],
    {
        let h = self.header.height as usize;
        let ghost od = self.data@;
        if h == 0 {
            return;
        }
        let s = self.stride();
        let n = self.data.len();
        let ghost si = s as int;
        let mut row: usize = 0;
        while row < h
            invariant
                h == self.header.height,
                self.header == old(self).header,
                self.palette == old(self).palette,
                od == old(self).data@,
                s == old(self).row_stride(),
                si == s,
                s >= 2,
                h * si <= od.len(),
                n == od.len(),
                row <= h,
                self.data@.len() == od.len(),
                forall|b: u8| f.requires((b,)),
                forall|r: int, j: int|
                    0 <= r < row && 1 <= j < si ==> f.ensures(
                        (od[row_pos(si, r, j)],),
                        #[trigger] self.data@[row_pos(si, r, j)],
                    ),
                forall|r: int|
                    0 <= r < h ==> #[trigger] self.data@[row_pos(si, r, 0)] == od[row_pos(si, r, 0)],
                forall|k: int| row * si <= k < od.len() ==> #[trigger] self.data@[k] == od[k],
            decreases h - row,
        {
            proof {
                assert(row * s + s <= h * s) by (nonlinear_arith)
                    requires
                        row < h,
                ;
            }
            let base = row * s;
            let mut j: usize = 1;
            while j < s
                invariant
                    h == self.header.height,
                    self.header == old(self).header,
                    self.palette == old(self).palette,
                    od == old(self).data@,
                    si == s,
                    s >= 2,
                    h * si <= od.len(),
                    n == od.len(),
                    row < h,
                    base == row * si,
                    base + si <= h * si,
                    1 <= j <= s,
                    self.data@.len() == od.len(),
                    forall|b: u8| f.requires((b,)),
                    forall|r: int, j2: int|
                        0 <= r < row && 1 <= j2 < si ==> f.ensures(
                            (od[row_pos(si, r, j2)],),
                            #[trigger] self.data@[row_pos(si, r, j2)],
                        ),
                    forall|j2: int|
                        1 <= j2 < j ==> f.ensures(
                            (od[row_pos(si, row as int, j2)],),
                            #[trigger] self.data@[row_pos(si, row as int, j2)],
                        ),
                    forall|r: int|
                        0 <= r < h ==> #[trigger] self.data@[row_pos(si, r, 0)] == od[row_pos(
                            si,
                            r,
                            0,
                        )],
                    forall|k: int| base + j <= k < od.len() ==> #[trigger] self.data@[k] == od[k],
                decreases s - j,
            {
                let k = base + j;
                let v = f(self.data[k]);
                let ghost before = self.data@;
                self.data.set(k, v);
                proof {
                    assert forall|r: int, j2: int|
                        0 <= r < row && 1 <= j2 < si implies self.data@[row_pos(si, r, j2)]
                        == before[row_pos(si, r, j2)] by {
                        lemma_row_pos_order(si, r, j2, row as int, j as int);
                    }
                    assert forall|r: int| 0 <= r < h implies self.data@[row_pos(si, r, 0)]
                        == before[row_pos(si, r, 0)] by {
                        lemma_row_pos_order(si, r, 0, h as int, 0);
                        if r < row {
                            lemma_row_pos_order(si, r, 0, row as int, j as int);
                        } else if r > row {
                            lemma_row_pos_order(si, row as int, j as int, r, 0);
                        }
                    }
                    assert(row_pos(si, row as int, j as int) == k);
                }
                j = j + 1;
            }
            proof {
                assert forall|r: int, j2: int|
                    0 <= r < row + 1 && 1 <= j2 < si implies f.ensures(
                    (od[row_pos(si, r, j2)],),
                    #[trigger] self.data@[row_pos(si, r, j2)],
                ) by {
                    if r == row {
                        assert(self.data@[row_pos(si, row as int, j2)] == self.data@[row_pos(si, r, j2)]);
                    }
                }
                assert((row + 1) * si == base + si) by (nonlinear_arith)
                    requires
                        base == row * si,
                ;
            }
            row = row + 1;
        }
    }
}

impl Png {
    /// Tells whether the image can be encoded: see `wf`.
    pub fn is_wf(&self) -> (r: bool)
        ensures
            r == self.wf(),
    {
        self.header.is_wf() && match &self.palette {
            Some(p) => p.len() <= 256,
            None => true,
        }
    }

    /// Tells whether the buffer holds all rows, as row iteration needs.
    pub fn has_all_rows(&self) -> (r: bool)
        ensures
            r == self.rows_fit(),
    {
        let h = self.header.height as usize;
        if h == 0 {
            return true;
        }
        let bits = self.header.colour.bit_depth.bits() as usize;
        assert(bits == 1 || bits == 2 || bits == 4 || bits == 8 || bits == 16);
        let per = 16 / bits;
        let stride = self.header.width as usize / per;
        let n = self.data.len();
        // compare `stride + 2` with `n / h` rather than `h * (stride + 2)` with `n`
        let q = n / h;
        if q < 2 {
            proof {
                assert(h * self.row_stride() > n) by (nonlinear_arith)
                    requires
                        q == n / h,
                        q < 2,
                        self.row_stride() >= 2,
                        h > 0,
                ;
            }
            return false;
        }
        let r = stride <= q - 2;
        proof {
            let s = self.row_stride();
            assert(s == stride + 2);
            if r {
                assert(h * s <= n) by (nonlinear_arith)
                    requires
                        s <= q,
                        q == n / h,
                        h > 0,
                ;
            } else {
                assert(h * s > n) by (nonlinear_arith)
                    requires
                        s > q,
                        q == n / h,
                        h > 0,
                ;
            }
        }
        r
    }
}

} // verus!

//! Transforms of a decoded image's scanline bytes: unpacking sub-byte
//! samples, and mapping palette indices from one palette onto another.
use vstd::prelude::*;

use crate::raw::{BitDepth, Palette};
use crate::{copy_palette, row_pos, lemma_row_pos_order, Png};

verus! {

/// A transform needed a palette and the image has none.
#[derive(Debug, Clone, Copy, PartialEq, Eq, Structural)]
pub struct TransformError;

/// A transform of an image, applied in place.
pub trait InputTransform {
    /// The images this transform takes.
    spec fn admits(&self, png: Png) -> bool;

    /// `after` and `r` are what the transform makes of `before`.
    spec fn outcome(&self, before: Png, after: Png, r: Result<(), TransformError>) -> bool;

    fn transform(&self, png: &mut Png) -> (r: Result<(), TransformError>)
        requires
            self.admits(*old(png)),
        ensures
            self.outcome(*old(png), *final(png), r),
    ;
}

/// Expands 1, 2 and 4-bit samples to one byte each.
pub struct Unpack;

/// Sample `i` of a row packed at `bd` bits per sample, most significant bits
/// first; a sample whose byte lies past the row reads as 0.
pub open spec fn sample_at(input: Seq<u8>, i: int, bd: int) -> u8 {
    let per = 8int / bd;
    let j = i * bd / 8;
    let shift = (per - (i % per) - 1) * bd;
    let mask = mask_of(bd);
    if j < input.len() {
        ((input[j] >> (shift as u8)) & mask) as u8
    } else {
        0
    }
}

/// `(1 << bd) - 1`: the low `bd` bits set.
pub open spec fn mask_of(bd: int) -> u8 {
    if bd == 1 {
        1
    } else if bd == 2 {
        3
    } else if bd == 4 {
        15
    } else {
        255
    }
}

pub open spec fn is_sub_byte(bd: int) -> bool {
    bd == 1 || bd == 2 || bd == 4
}

impl Unpack {
    /// Fills `output[i]` with sample `i` of `input`, for every index of `output`.
    pub fn unpack(input: &[u8], output: &mut Vec<u8>, bitdepth: usize, samples: usize)
        requires
            is_sub_byte(bitdepth as int),
            samples * bitdepth == 8,
        ensures
            final(output)@.len() == old(output)@.len(),
            forall|i: int|
                0 <= i < old(output)@.len() ==> #[trigger] final(output)@[i] == sample_at(
                    input@,
                    i,
                    bitdepth as int,
                ),
    {
        let mask: u8 = if bitdepth == 1 {
            1
        } else if bitdepth == 2 {
            3
        } else {
            15
        };
        let mut i: usize = 0;
        while i < output.len()
            invariant
                is_sub_byte(bitdepth as int),
                samples * bitdepth == 8,
                mask == mask_of(bitdepth as int),
                i <= output@.len(),
                output@.len() == old(output)@.len(),
                forall|k: int|
                    0 <= k < i ==> #[trigger] output@[k] == sample_at(input@, k, bitdepth as int),
            decreases output@.len() - i,
        {
            let j = i / samples;
            proof {
                if bitdepth == 1 {
                    assert(samples == 8) by (nonlinear_arith)
                        requires
                            bitdepth == 1,
                            samples * bitdepth == 8,
                    ;
                } else if bitdepth == 2 {
                    assert(samples == 4) by (nonlinear_arith)
                        requires
                            bitdepth == 2,
                            samples * bitdepth == 8,
                    ;
                } else {
                    assert(samples == 2) by (nonlinear_arith)
                        requires
                            bitdepth == 4,
                            samples * bitdepth == 8,
                    ;
                }
                assert(j == i * bitdepth / 8);
                assert(samples == 8int / (bitdepth as int));
                assert((samples - (i % samples) - 1) * bitdepth < 8) by (nonlinear_arith)
                    requires
                        samples * bitdepth == 8,
                        0 <= i % samples < samples,
                ;
            }
            let shift = (samples - (i % samples) - 1) * bitdepth;
            let v = if j < input.len() {
                (input[j] >> (shift as u8)) & mask
            } else {
                0
            };
            output.set(i, v);
            i = i + 1;
        }
    }
}

/// `after` is `before` with every sample of every row unpacked to one byte,
/// rows of `width + 1` bytes with filter-type byte 0, and bit depth 8; an
/// image of depth 8 or 16 is left as it is. Each row is read from its
/// `width / (16 / bit_depth) + 1` sample bytes; where that is fewer than the
/// samples need, the samples past the row's last byte come out as 0.
pub open spec fn unpacked(before: Png, after: Png) -> bool {
    let bd = before.header.colour.bit_depth.spec_bits() as int;
    let w = before.header.width as int;
    let h = before.header.height as int;
    if !is_sub_byte(bd) {
        &&& after.header == before.header
        &&& after.palette == before.palette
        &&& after.data@ == before.data@
    } else {
        &&& after.header.width == before.header.width
        &&& after.header.height == before.header.height
        &&& after.header.colour.t == before.header.colour.t
        &&& after.header.colour.bit_depth == BitDepth::B8
        &&& after.header.filter_method == before.header.filter_method
        &&& after.header.interlace == before.header.interlace
        &&& after.palette == before.palette
        &&& after.data@.len() == (w + 1) * h
        &&& forall|r: int, i: int|
            0 <= r < h && 0 <= i < w ==> #[trigger] after.data@[row_pos(w + 1, r, i + 1)]
                == sample_at(before.row(r), i, bd)
        &&& forall|r: int| 0 <= r < h ==> #[trigger] after.data@[row_pos(w + 1, r, 0)] == 0
    }
}

impl InputTransform for Unpack {
    open spec fn admits(&self, png: Png) -> bool {
        &&& png.rows_fit()
        &&& png.header.width + 1 <= usize::MAX
        &&& (png.header.width + 1) * png.header.height <= usize::MAX
    }

    open spec fn outcome(&self, before: Png, after: Png, r: Result<(), TransformError>) -> bool {
        r is Ok && unpacked(before, after)
    }

    fn transform(&self, png: &mut Png) -> (r: Result<(), TransformError>) {
        // bits per sample, and samples per byte
        let (b, samples): (usize, usize) = match png.header.colour.bit_depth {
            BitDepth::B1 => (1, 8),
            BitDepth::B2 => (2, 4),
            BitDepth::B4 => (4, 2),
            BitDepth::B8 | BitDepth::B16 => {
                return Ok(());
            },
        };
        let rows = png.iterate_rows();
        let w = png.header.width as usize;
        let h = png.header.height as usize;
        proof {
            assert((w + 1) * h <= usize::MAX);
        }
        let ow = w + 1;
        let ghost old_png = *png;
        let mut out: Vec<u8> = Vec::new();
        let mut row: usize = 0;
        while row < h
            invariant
                old_png == *old(png),
                *png == old_png,
                h == old_png.header.height,
                w == old_png.header.width,
                ow == w + 1,
                ow * h <= usize::MAX,
                is_sub_byte(b as int),
                b == old_png.header.colour.bit_depth.spec_bits(),
                samples * b == 8,
                rows@.len() == h,
                forall|k: int| 0 <= k < h ==> (#[trigger] rows@[k])@ == old_png.row(k),
                row <= h,
                out@.len() == row * ow,
                forall|r: int, i: int|
                    0 <= r < row && 0 <= i < w ==> #[trigger] out@[row_pos(ow as int, r, i + 1)]
                        == sample_at(old_png.row(r), i, b as int),
                forall|r: int| 0 <= r < row ==> #[trigger] out@[row_pos(ow as int, r, 0)] == 0,
            decreases h - row,
        {
            proof {
                assert(row * ow + ow <= h * ow) by (nonlinear_arith)
                    requires
                        row < h,
                ;
                assert((row + 1) * ow == row * ow + ow) by (nonlinear_arith);
            }
            let ghost before = out@;
            let mut o: Vec<u8> = Vec::new();
            let mut k: usize = 0;
            while k < w
                invariant
                    k <= w,
                    o@.len() == k,
                decreases w - k,
            {
                o.push(0);
                k = k + 1;
            }
            Unpack::unpack(rows[row].as_slice(), &mut o, b, samples);
            out.push(0);
            crate::raw::append(&mut out, o.as_slice());
            proof {
                assert forall|r: int, i: int|
                    0 <= r < row + 1 && 0 <= i < w implies #[trigger] out@[row_pos(ow as int, r, i + 1)]
                    == sample_at(old_png.row(r), i, b as int) by {
                    if r < row {
                        lemma_row_pos_order(ow as int, r, i + 1, row as int, 0);
                        assert(out@[row_pos(ow as int, r, i + 1)] == before[row_pos(ow as int, r, i + 1)]);
                    } else {
                        assert(row_pos(ow as int, r, i + 1) == before.len() + 1 + i);
                    }
                }
                assert forall|r: int| 0 <= r < row + 1 implies #[trigger] out@[row_pos(ow as int, r, 0)] == 0 by {
                    if r < row {
                        lemma_row_pos_order(ow as int, r, 0, row as int, 0);
                        assert(out@[row_pos(ow as int, r, 0)] == before[row_pos(ow as int, r, 0)]);
                    } else {
                        assert(row_pos(ow as int, r, 0) == before.len());
                    }
                }
            }
            row = row + 1;
        }
        png.header.colour.bit_depth = BitDepth::B8;
        png.data = out;
        assert(png.data@.len() == (w + 1) * h) by (nonlinear_arith)
            requires
                png.data@.len() == row * ow,
                row == h,
                ow == w + 1,
        ;
        Ok(())
    }
}

/// Maps palette indices of an image onto a target palette, by exact colour.
pub struct Recolor(Palette);

pub open spec fn same_colour(a: [u8; 3], b: [u8; 3]) -> bool {
    a[0] == b[0] && a[1] == b[1] && a[2] == b[2]
}

/// `v` is the index that source index `s` maps to: the first target entry of
/// the same colour, or 0 when the target has none.
pub open spec fn maps_to(src: Seq<[u8; 3]>, tgt: Seq<[u8; 3]>, s: int, v: int) -> bool {
    if exists|t: int| 0 <= t < tgt.len() && same_colour(tgt[t], src[s]) {
        &&& 0 <= v < tgt.len()
        &&& same_colour(tgt[v], src[s])
        &&& forall|t: int| 0 <= t < v ==> !same_colour(tgt[t], src[s])
    } else {
        v == 0
    }
}

/// Sample byte `b` becomes `nb`: a source index is mapped onto the target; a
/// byte past the source palette stays as it is.
pub open spec fn recoloured(src: Seq<[u8; 3]>, tgt: Seq<[u8; 3]>, b: u8, nb: u8) -> bool {
    if (b as int) < src.len() {
        maps_to(src, tgt, b as int, nb as int)
    } else {
        nb == b
    }
}

/// The index that each source entry maps to.
fn translation_table(src: &Palette, tgt: &Palette) -> (r: Vec<u8>)
    requires
        tgt@.len() <= 256,
    ensures
        r@.len() == src@.len(),
        forall|s: int| 0 <= s < src@.len() ==> maps_to(src@, tgt@, s, #[trigger] r@[s] as int),
{
    let mut conversion: Vec<u8> = Vec::new();
    let mut s: usize = 0;
    while s < src.len()
        invariant
            tgt@.len() <= 256,
            s <= src@.len(),
            conversion@.len() == s,
            forall|k: int| 0 <= k < s ==> maps_to(src@, tgt@, k, #[trigger] conversion@[k] as int),
        decreases src@.len() - s,
    {
        let c = src[s];
        let mut t: usize = 0;
        let mut found: u8 = 0;
        let mut hit = false;
        while t < tgt.len() && !hit
            invariant
                tgt@.len() <= 256,
                s < src@.len(),
                c == src@[s as int],
                t <= tgt@.len(),
                hit ==> (found < tgt@.len() && same_colour(tgt@[found as int], c) && forall|
                    u: int,
                | 0 <= u < found ==> !same_colour(tgt@[u], c)),
                !hit ==> found == 0 && forall|u: int| 0 <= u < t ==> !same_colour(tgt@[u], c),
            decreases tgt@.len() - t + (if hit { 0int } else { 1int }),
        {
            let e = tgt[t];
            if e[0] == c[0] && e[1] == c[1] && e[2] == c[2] {
                found = t as u8;
                assert(found as int == t);
                assert(same_colour(tgt@[t as int], c));
                hit = true;
            } else {
                t = t + 1;
            }
        }
        conversion.push(found);
        proof {
            assert(maps_to(src@, tgt@, s as int, found as int)) by {
                if !hit {
                    assert(!exists|u: int| 0 <= u < tgt@.len() && same_colour(tgt@[u], src@[s as int]));
                }
            }
        }
        s = s + 1;
    }
    conversion
}

impl Recolor {
    /// The palette that images are mapped onto.
    pub closed spec fn target(&self) -> Seq<[u8; 3]> {
        self.0@
    }

    pub fn new(p: &Palette) -> (r: Self)
        requires
            p@.len() <= 256,
        ensures
            r.target() == p@,
    {
        Recolor(copy_palette(p))
    }
}

/// `after` is `before` with every sample byte of every row recoloured from
/// `src` onto `tgt`, the filter-type bytes and the bytes after the last row
/// kept, and `tgt` as its palette.
pub open spec fn recolour_outcome(src: Seq<[u8; 3]>, tgt: Seq<[u8; 3]>, before: Png, after: Png) -> bool {
    let s = before.row_stride();
    let h = before.header.height as int;
    &&& after.header == before.header
    &&& after.palette matches Some(p) && p@ == tgt
    &&& after.data@.len() == before.data@.len()
    &&& forall|r: int, j: int|
        0 <= r < h && 1 <= j < s ==> recoloured(
            src,
            tgt,
            before.data@[row_pos(s, r, j)],
            #[trigger] after.data@[row_pos(s, r, j)],
        )
    &&& forall|r: int|
        0 <= r < h ==> #[trigger] after.data@[row_pos(s, r, 0)] == before.data@[row_pos(s, r, 0)]
    &&& forall|k: int|
        h * s <= k < before.data@.len() ==> #[trigger] after.data@[k] == before.data@[k]
}

impl InputTransform for Recolor {
    open spec fn admits(&self, png: Png) -> bool {
        png.rows_fit() && self.target().len() <= 256
    }

    open spec fn outcome(&self, before: Png, after: Png, r: Result<(), TransformError>) -> bool {
        match before.palette {
            None => r is Err && after == before,
            Some(src) => r is Ok && recolour_outcome(src@, self.target(), before, after),
        }
    }

    fn transform(&self, png: &mut Png) -> (r: Result<(), TransformError>) {
        let conversion = match &png.palette {
            Some(src) => translation_table(src, &self.0),
            None => {
                return Err(TransformError);
            },
        };
        let ghost src = png.palette->0@;
        let ghost tgt = self.0@;
        let conv = &conversion;
        let f = |b: u8| -> (nb: u8)
            ensures
                nb == if (b as int) < conv@.len() {
                    conv@[b as int]
                } else {
                    b
                },
            {
                if (b as usize) < conv.len() {
                    conv[b as usize]
                } else {
                    b
                }
            };
        let ghost before = *png;
        png.iterate_rows_mut(f);
        png.palette = Some(copy_palette(&self.0));
        proof {
            let st = before.row_stride();
            assert forall|r: int, j: int|
                0 <= r < before.header.height && 1 <= j < st implies recoloured(
                src,
                tgt,
                before.data@[row_pos(st, r, j)],
                #[trigger] png.data@[row_pos(st, r, j)],
            ) by {
                let b = before.data@[row_pos(st, r, j)];
                let nb = png.data@[row_pos(st, r, j)];
                assert(f.ensures((b,), nb));
                if (b as int) < src.len() {
                    assert(maps_to(src, tgt, b as int, conversion@[b as int] as int));
                }
            }
        }
        Ok(())
    }
}

impl Unpack {
    /// Tells whether the unpacked buffer, `(width + 1) * height` bytes, can be
    /// held, and the image holds all its rows: what `transform` needs.
    pub fn admits_image(png: &Png) -> (r: bool)
        ensures
            r == (png.rows_fit() && png.header.width + 1 <= usize::MAX && (png.header.width + 1)
                * png.header.height <= usize::MAX),
    {
        if !png.has_all_rows() {
            return false;
        }
        let w = png.header.width as usize;
        if w == usize::MAX {
            return false;
        }
        let ow = w + 1;
        let h = png.header.height as usize;
        let r = h <= usize::MAX / ow;
        proof {
            if r {
                assert(ow * h <= usize::MAX) by (nonlinear_arith)
                    requires
                        h <= usize::MAX / ow,
                        ow > 0,
                ;
            } else {
                assert(ow * h > usize::MAX) by (nonlinear_arith)
                    requires
                        h > usize::MAX / ow,
                        ow > 0,
                ;
            }
        }
        r
    }
}

/// Unpacking an image that has been unpacked changes nothing: after one
/// unpack the image is still admitted (given a nonzero width), and a second
/// unpack leaves header, palette and scanline bytes as they are.
pub proof fn lemma_unpack_twice(before: Png, once: Png, twice: Png)
    requires
        Unpack.admits(before),
        before.header.width >= 1,
        unpacked(before, once),
        unpacked(once, twice),
    ensures
        Unpack.admits(once),
        twice.header == once.header,
        twice.palette == once.palette,
        twice.data@ == once.data@,
{
    let bd = before.header.colour.bit_depth.spec_bits() as int;
    if is_sub_byte(bd) {
        let w = before.header.width as int;
        let h = before.header.height as int;
        assert(once.row_stride() == w / 2 + 2);
        assert(h * (w / 2 + 2) <= (w + 1) * h) by (nonlinear_arith)
            requires
                w >= 1,
                h >= 0,
        ;
    }
}

} // verus!

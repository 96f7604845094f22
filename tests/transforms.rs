use wpng::raw::{BitDepth, Colour, ColourType, Header, InterlaceMethod};
use wpng::transform::{InputTransform, Recolor, TransformError, Unpack};
use wpng::Png;

fn image(width: u32, height: u32, depth: BitDepth, t: ColourType, data: Vec<u8>) -> Png {
    Png {
        header: Header {
            width,
            height,
            colour: Colour { bit_depth: depth, t },
            filter_method: 0,
            interlace: InterlaceMethod::NoInterlace,
        },
        palette: None,
        data,
    }
}

#[test]
fn unpack_two_bit_row() {
    let mut png = image(4, 1, BitDepth::B2, ColourType::GreyScale, vec![0, 0b1110_0100]);
    assert_eq!(Unpack.transform(&mut png), Ok(()));
    assert_eq!(png.data, vec![0, 3, 2, 1, 0]);
    assert_eq!(png.header.colour.bit_depth, BitDepth::B8);
}

#[test]
fn unpack_one_bit_row() {
    let mut png = image(8, 1, BitDepth::B1, ColourType::GreyScale, vec![0, 0b1011_0001, 0]);
    Unpack.transform(&mut png).unwrap();
    assert_eq!(png.data, vec![0, 1, 0, 1, 1, 0, 0, 0, 1]);
}

#[test]
fn unpack_four_bit_rows() {
    let mut png = image(2, 2, BitDepth::B4, ColourType::IndexedColour, vec![0, 0xA5, 0, 0x3C]);
    Unpack.transform(&mut png).unwrap();
    assert_eq!(png.data, vec![0, 0xA, 0x5, 0, 0x3, 0xC]);
    assert_eq!(png.header.colour.t, ColourType::IndexedColour);
}

#[test]
fn unpack_leaves_eight_and_sixteen_bit_alone() {
    let data = vec![0, 9, 8, 7, 0, 1, 2, 3];
    let mut png = image(4, 2, BitDepth::B8, ColourType::GreyScale, data.clone());
    let header = png.header;
    assert_eq!(Unpack.transform(&mut png), Ok(()));
    assert_eq!(png.data, data);
    assert_eq!(png.header, header);
    let mut png = image(1, 2, BitDepth::B16, ColourType::GreyScale, data.clone());
    let header = png.header;
    assert_eq!(Unpack.transform(&mut png), Ok(()));
    assert_eq!(png.data, data);
    assert_eq!(png.header, header);
}

#[test]
fn recolor_exact_match() {
    let target = vec![[4, 5, 6], [1, 2, 3]];
    let recolor = Recolor::new(&target);
    let mut png = image(2, 1, BitDepth::B8, ColourType::IndexedColour, vec![0, 0, 1]);
    png.palette = Some(vec![[1, 2, 3], [4, 5, 6]]);
    assert_eq!(recolor.transform(&mut png), Ok(()));
    assert_eq!(png.data, vec![0, 1, 0]);
    assert_eq!(png.palette, Some(target));
}

#[test]
fn recolor_unmatched_colour_maps_to_zero() {
    let recolor = Recolor::new(&vec![[9, 9, 9], [1, 1, 1], [1, 1, 1]]);
    let mut png = image(4, 1, BitDepth::B8, ColourType::IndexedColour, vec![0, 0, 1, 2, 0]);
    png.palette = Some(vec![[7, 7, 7], [1, 1, 1]]);
    recolor.transform(&mut png).unwrap();
    assert_eq!(png.data, vec![0, 0, 1, 2, 0]);
    let mut png = image(4, 1, BitDepth::B8, ColourType::IndexedColour, vec![0, 1, 0, 5, 0]);
    png.palette = Some(vec![[7, 7, 7], [1, 1, 1]]);
    recolor.transform(&mut png).unwrap();
    assert_eq!(png.data, vec![0, 1, 0, 5, 0]);
}

#[test]
fn recolor_without_palette_fails() {
    let recolor = Recolor::new(&vec![[1, 2, 3]]);
    let mut png = image(2, 1, BitDepth::B8, ColourType::GreyScale, vec![0, 0, 0]);
    assert_eq!(recolor.transform(&mut png), Err(TransformError));
    assert_eq!(png.data, vec![0, 0, 0]);
    assert_eq!(png.palette, None);
}

#[test]
fn rows_are_read_with_the_row_width() {
    let png = image(4, 2, BitDepth::B2, ColourType::GreyScale, vec![0, 0xAB, 0, 0xCD]);
    assert_eq!(png.iterate_rows(), vec![vec![0xAB], vec![0xCD]]);
    assert_eq!(png.extract_pixels(), vec![0xAB, 0xCD]);
    let png = image(2, 2, BitDepth::B8, ColourType::GreyScale, vec![0, 1, 2, 0, 3, 4]);
    assert_eq!(png.iterate_rows(), vec![vec![1, 2], vec![3, 4]]);
}

#[test]
fn rows_are_rewritten_in_place() {
    let mut png = image(2, 2, BitDepth::B8, ColourType::GreyScale, vec![0, 1, 2, 0, 3, 4, 9]);
    png.iterate_rows_mut(|b| b + 10);
    assert_eq!(png.data, vec![0, 11, 12, 0, 13, 14, 9]);
}

#[test]
fn precondition_checks() {
    let png = image(4, 2, BitDepth::B2, ColourType::GreyScale, vec![0, 0xAB, 0, 0xCD]);
    assert!(png.has_all_rows());
    assert!(Unpack::admits_image(&png));
    assert!(png.is_wf());
    let short = image(4, 3, BitDepth::B2, ColourType::GreyScale, vec![0, 0xAB, 0, 0xCD]);
    assert!(!short.has_all_rows());
    assert!(!Unpack::admits_image(&short));
    let mut bad = image(4, 2, BitDepth::B16, ColourType::IndexedColour, vec![]);
    assert!(!bad.is_wf());
    bad.header.colour.bit_depth = BitDepth::B8;
    assert!(bad.is_wf());
    bad.palette = Some(vec![[0, 0, 0]; 257]);
    assert!(!bad.is_wf());
}

#[test]
fn palette_bytes_convert_both_ways() {
    let p = wpng::raw::decode_palette(&[1, 2, 3, 4, 5, 6]).unwrap();
    assert_eq!(p, vec![[1, 2, 3], [4, 5, 6]]);
    assert_eq!(wpng::raw::palette_to_bytes(&p), vec![1, 2, 3, 4, 5, 6]);
    assert!(wpng::raw::decode_palette(&[1, 2]).is_none());
    assert!(wpng::raw::decode_palette(&[0; 771]).is_none());
    assert_eq!(wpng::raw::decode_palette(&[0; 768]).map(|p| p.len()), Some(256));
}

#[test]
fn unpack_twice_is_unpack_once() {
    let mut png = image(4, 2, BitDepth::B2, ColourType::GreyScale, vec![0, 0b1110_0100, 0, 0b0001_1011]);
    Unpack.transform(&mut png).unwrap();
    let once = (png.header, png.palette.clone(), png.data.clone());
    assert_eq!(once.2, vec![0, 3, 2, 1, 0, 0, 0, 1, 2, 3]);
    assert!(Unpack::admits_image(&png));
    assert_eq!(Unpack.transform(&mut png), Ok(()));
    assert_eq!((png.header, png.palette.clone(), png.data.clone()), once);
}

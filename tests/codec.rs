use wpng::raw::{
    BitDepth, Chunk, Colour, ColourType, Dump, FormatError, Header, InterlaceMethod, RawChunk,
    RawPng, IEND, SIGNATURE,
};
use wpng::Png;

fn chunk(name: &[u8; 4], data: &[u8]) -> Vec<u8> {
    let mut out = Vec::new();
    out.extend_from_slice(&(data.len() as u32).to_be_bytes());
    out.extend_from_slice(name);
    out.extend_from_slice(data);
    let mut h = crc32fast::Hasher::new();
    h.update(name);
    h.update(data);
    out.extend_from_slice(&h.finalize().to_be_bytes());
    out
}

fn ihdr(width: u32, height: u32, depth: u8, colour: u8) -> Vec<u8> {
    let mut d = Vec::new();
    d.extend_from_slice(&width.to_be_bytes());
    d.extend_from_slice(&height.to_be_bytes());
    d.extend_from_slice(&[depth, colour, 0, 0, 0]);
    chunk(b"IHDR", &d)
}

fn end() -> Vec<u8> {
    vec![0, 0, 0, 0, b'I', b'E', b'N', b'D', 0xAE, 0x42, 0x60, 0x82]
}

fn stream(parts: &[Vec<u8>]) -> Vec<u8> {
    let mut out = SIGNATURE.to_vec();
    for p in parts {
        out.extend_from_slice(p);
    }
    out
}

fn grey_header(width: u32, height: u32) -> Header {
    Header {
        width,
        height,
        colour: Colour { bit_depth: BitDepth::B8, t: ColourType::GreyScale },
        filter_method: 0,
        interlace: InterlaceMethod::NoInterlace,
    }
}

#[test]
fn it_works() {
    assert_eq!(2 + 2, 4);
}

#[test]
fn minimal_file_parses_and_reparses() {
    let input = stream(&[ihdr(1, 1, 8, 0), chunk(b"IDAT", &[]), end()]);
    let (rest, png) = RawPng::parse(&input).unwrap();
    assert!(rest.is_empty());
    assert_eq!(png.0.width, 1);
    assert_eq!(png.0.height, 1);
    assert_eq!(png.0.colour.bit_depth, BitDepth::B8);
    assert_eq!(png.0.colour.t, ColourType::GreyScale);
    assert_eq!(png.1.len(), 1);
    assert!(matches!(&png.1[0], Chunk::Data(d) if d.is_empty()));
    let mut out = Vec::new();
    png.dump(&mut out);
    assert_eq!(out, input);
    let (rest2, again) = RawPng::parse(&out).unwrap();
    assert!(rest2.is_empty());
    assert_eq!(again.0, png.0);
    assert_eq!(again.1.len(), 1);
}

#[test]
fn minimal_image_round_trips_through_document() {
    let png = Png { header: grey_header(1, 1), palette: None, data: vec![0, 7] };
    let bytes = png.encode().unwrap();
    let back = Png::decode(&bytes).unwrap();
    assert_eq!(back.header, png.header);
    assert_eq!(back.palette, None);
    assert_eq!(back.data, vec![0, 7]);
    let (_, raw) = RawPng::parse(&bytes).unwrap();
    assert!(raw.1.iter().all(|c| matches!(c, Chunk::Data(d) if !d.is_empty())));
}

#[test]
fn document_round_trip_keeps_palette_and_scanlines() {
    let mut header = grey_header(3, 2);
    header.colour.t = ColourType::IndexedColour;
    let png = Png {
        header,
        palette: Some(vec![[1, 2, 3], [4, 5, 6], [7, 8, 9]]),
        data: vec![0, 0, 1, 0, 2, 1, 0, 0],
    };
    let bytes = png.encode().unwrap();
    let back = Png::decode(&bytes).unwrap();
    assert_eq!(back.header, png.header);
    assert_eq!(back.palette, png.palette);
    assert_eq!(back.data, png.data);
}

#[test]
fn large_scanlines_split_into_bounded_data_chunks() {
    let mut data = Vec::new();
    let mut x: u32 = 12345;
    for _ in 0..40000 {
        x = x.wrapping_mul(1103515245).wrapping_add(12345);
        data.push((x >> 16) as u8);
    }
    for r in 0..200 {
        data[r * 101] = 0;
    }
    let png = Png { header: grey_header(199, 200), palette: None, data: data.clone() };
    let raw = png.to_raw().unwrap();
    assert!(raw.1.len() > 1);
    for c in raw.1.iter() {
        match c {
            Chunk::Data(d) => assert!(!d.is_empty() && d.len() <= 4096),
            _ => panic!("unexpected chunk"),
        }
    }
    let mut out = Vec::new();
    raw.dump(&mut out);
    let back = Png::decode(&out).unwrap();
    assert_eq!(back.data, data);
}

#[test]
fn data_chunks_are_concatenated_in_order() {
    let png = Png { header: grey_header(2, 2), palette: None, data: vec![0, 1, 2, 0, 3, 4] };
    let raw = png.to_raw().unwrap();
    let mut all = Vec::new();
    for c in raw.1.iter() {
        if let Chunk::Data(d) = c {
            all.extend_from_slice(d);
        }
    }
    let (a, b) = all.split_at(all.len() / 2);
    let input = stream(&[ihdr(2, 2, 8, 0), chunk(b"IDAT", a), chunk(b"tEXt", b"hi"), chunk(b"IDAT", b), end()]);
    let back = Png::decode(&input).unwrap();
    assert_eq!(back.data, vec![0, 1, 2, 0, 3, 4]);
}

#[test]
fn flipped_payload_bit_is_rejected() {
    let mut c = chunk(b"tEXt", b"hello");
    c[9] ^= 0x04;
    assert_eq!(RawChunk::parse(&c).err(), Some(FormatError::ChecksumMismatch));
    let mut s = stream(&[ihdr(1, 1, 8, 0), chunk(b"IDAT", &[1, 2, 3]), end()]);
    let at = 8 + 25 + 8 + 1;
    s[at] ^= 0x80;
    assert_eq!(RawPng::parse(&s).err(), Some(FormatError::ChecksumMismatch));
}

#[test]
fn raw_chunk_parse_leaves_the_rest() {
    let mut c = chunk(b"abcd", b"xyz");
    c.extend_from_slice(&[9, 9]);
    let (rest, raw) = RawChunk::parse(&c).unwrap();
    assert_eq!(rest, &[9, 9]);
    assert_eq!(&raw.name, b"abcd");
    assert_eq!(raw.data, b"xyz".to_vec());
    assert!(!raw.is_end());
}

#[test]
fn trailing_bytes_after_end_are_returned() {
    let mut input = stream(&[ihdr(1, 1, 8, 0), end()]);
    input.extend_from_slice(b"junk");
    let (rest, png) = RawPng::parse(&input).unwrap();
    assert_eq!(rest, b"junk");
    assert!(png.1.is_empty());
}

#[test]
fn bad_signature_is_rejected() {
    let mut input = stream(&[ihdr(1, 1, 8, 0), end()]);
    input[1] = b'Q';
    assert_eq!(RawPng::parse(&input).err(), Some(FormatError::BadSignature));
    assert_eq!(RawPng::parse(&[0x89, b'P']).err(), Some(FormatError::BadSignature));
}

#[test]
fn truncated_stream_is_rejected() {
    let input = stream(&[ihdr(1, 1, 8, 0), chunk(b"IDAT", &[1, 2, 3])]);
    assert_eq!(RawPng::parse(&input).err(), Some(FormatError::Truncated));
    let c = chunk(b"IDAT", &[1, 2, 3, 4]);
    assert_eq!(RawChunk::parse(&c[..c.len() - 1]).err(), Some(FormatError::Truncated));
}

#[test]
fn invalid_header_is_rejected() {
    let input = stream(&[chunk(b"IDAT", &[]), end()]);
    assert_eq!(RawPng::parse(&input).err(), Some(FormatError::InvalidHeader));
    let mut d = Vec::new();
    d.extend_from_slice(&1u32.to_be_bytes());
    d.extend_from_slice(&1u32.to_be_bytes());
    d.extend_from_slice(&[8, 0, 1, 0, 0]);
    let input = stream(&[chunk(b"IHDR", &d), end()]);
    assert_eq!(RawPng::parse(&input).err(), Some(FormatError::InvalidHeader));
    let input = stream(&[ihdr(0, 1, 8, 0), end()]);
    assert_eq!(RawPng::parse(&input).err(), Some(FormatError::InvalidHeader));
}

#[test]
fn invalid_colour_model_is_rejected() {
    let input = stream(&[ihdr(1, 1, 16, 3), end()]);
    assert_eq!(RawPng::parse(&input).err(), Some(FormatError::InvalidColourModel));
    let input = stream(&[ihdr(1, 1, 3, 0), end()]);
    assert_eq!(RawPng::parse(&input).err(), Some(FormatError::InvalidColourModel));
}

#[test]
fn invalid_palette_is_rejected() {
    let input = stream(&[ihdr(1, 1, 8, 3), chunk(b"PLTE", &[1, 2, 3, 4]), end()]);
    assert_eq!(RawPng::parse(&input).err(), Some(FormatError::InvalidPalette));
}

#[test]
fn palette_chunk_is_read_as_triples() {
    let input = stream(&[ihdr(1, 1, 8, 3), chunk(b"PLTE", &[1, 2, 3, 4, 5, 6]), end()]);
    let (_, png) = RawPng::parse(&input).unwrap();
    assert!(matches!(&png.1[0], Chunk::Palette(p) if *p == vec![[1, 2, 3], [4, 5, 6]]));
}

#[test]
fn corrupt_zlib_stream_is_rejected() {
    let input = stream(&[ihdr(1, 1, 8, 0), chunk(b"IDAT", &[1, 2, 3]), end()]);
    assert_eq!(Png::decode(&input).err(), Some(FormatError::DecompressionFailed));
}

#[test]
fn end_chunk_checksum() {
    let e = RawChunk::end();
    assert!(e.is_end());
    assert_eq!(e.name, IEND);
    assert!(e.verify_crc32(0xAE42_6082));
    assert!(!e.verify_crc32(0xAE42_6083));
    let mut out = Vec::new();
    e.dump(&mut out);
    assert_eq!(out, end());
}

#[test]
fn header_chunk_encodes_fields() {
    let h = Header {
        width: 0x0102_0304,
        height: 5,
        colour: Colour { bit_depth: BitDepth::B4, t: ColourType::IndexedColour },
        filter_method: 0,
        interlace: InterlaceMethod::Adam7,
    };
    let c = h.to_chunk();
    assert_eq!(&c.name, b"IHDR");
    assert_eq!(c.data, vec![1, 2, 3, 4, 0, 0, 0, 5, 4, 3, 0, 0, 1]);
}

#[test]
fn colour_model_table() {
    assert!(Colour::from_u8(1, 0).is_some());
    assert!(Colour::from_u8(16, 0).is_some());
    assert!(Colour::from_u8(8, 2).is_some());
    assert!(Colour::from_u8(4, 2).is_none());
    assert!(Colour::from_u8(8, 3).is_some());
    assert!(Colour::from_u8(16, 3).is_none());
    assert!(Colour::from_u8(16, 6).is_some());
    assert!(Colour::from_u8(2, 4).is_none());
    assert!(Colour::from_u8(8, 5).is_none());
    assert_eq!(InterlaceMethod::from_u8(0), InterlaceMethod::NoInterlace);
    assert_eq!(InterlaceMethod::from_u8(1), InterlaceMethod::Adam7);
    assert_eq!(InterlaceMethod::from_u8(7), InterlaceMethod::Error);
}

#[test]
fn interlaced_image_is_refused() {
    let mut header = grey_header(1, 1);
    header.interlace = InterlaceMethod::Adam7;
    let png = Png { header, palette: None, data: vec![0, 5] };
    let bytes = png.encode().unwrap();
    assert_eq!(Png::decode(&bytes).err(), Some(FormatError::Unsupported));
}

#[test]
fn filtered_row_is_refused() {
    let png = Png { header: grey_header(2, 2), palette: None, data: vec![0, 1, 2, 1, 3, 4] };
    let bytes = png.encode().unwrap();
    assert_eq!(Png::decode(&bytes).err(), Some(FormatError::Unsupported));
    let ok = Png { header: grey_header(2, 2), palette: None, data: vec![0, 1, 2, 0, 3, 4, 7] };
    let bytes = ok.encode().unwrap();
    assert_eq!(Png::decode(&bytes).unwrap().data, vec![0, 1, 2, 0, 3, 4, 7]);
}

#[test]
fn filter_bytes_are_found_at_row_starts() {
    let h = grey_header(2, 3);
    assert!(wpng::filter_bytes_zero(&h, &[0, 1, 2, 0, 3, 4, 0, 5, 6]));
    assert!(!wpng::filter_bytes_zero(&h, &[0, 1, 2, 0, 3, 4, 2, 5, 6]));
    assert!(wpng::filter_bytes_zero(&h, &[0, 1, 2, 0]));
    assert!(!wpng::filter_bytes_zero(&h, &[3]));
    assert!(wpng::filter_bytes_zero(&h, &[]));
}

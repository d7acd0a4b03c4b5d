use submatch::bitmap::{blend_with_color, scale_image, Bitmap, Rgba};
use submatch::errors::SubError;
use submatch::pgs::parse_segments;
use submatch::vob::{
    compute_size, parse_block, parse_idx, parse_two_u12, NibbleReader,
};

fn test_pos_data(
    data: &[u8],
    x1_expected: u16,
    x2_expected: u16,
    y1_expected: u16,
    y2_expected: u16,
) {
    let (x1, x2) = parse_two_u12(&data[0..3]);
    let (y1, y2) = parse_two_u12(&data[3..]);
    assert_eq!(x1, x1_expected);
    assert_eq!(x2, x2_expected);
    assert_eq!(y1, y1_expected);
    assert_eq!(y2, y2_expected);
    let (_width, _height) = compute_size(x1, x2, y1, y2);
}

#[test]
fn parse_u12_test() {
    test_pos_data(
        &[0x00u8, 0x02, 0xcf, 0x00, 0x22, 0x3e],
        0x000,
        0x2cf,
        0x002,
        0x23e,
    );
    test_pos_data(
        &[0x0Eu8, 0xA1, 0xE1, 0x1A, 0x01, 0xBB],
        0x0EA,
        0x1E1,
        0x1A0,
        0x1BB,
    );
}

#[test]
fn nibble_reader_rounds_to_fresh_byte() {
    let data = [0xABu8, 0xCD];
    let mut r = NibbleReader::new(&data);
    assert_eq!(r.read_u4(), Some(0xA));
    // one nibble read: the reader stands mid-byte
    r.round_to_next_byte();
    // after rounding, the next read takes the following byte's high nibble
    assert_eq!(r.read_u4(), Some(0xC));
    assert_eq!(r.read_u4(), Some(0xD));
    assert_eq!(r.read_u4(), None);
}

fn sixteen_palette() -> Vec<Rgba> {
    let mut pal = Vec::new();
    pal.push(Rgba { r: 10, g: 20, b: 30, a: 255 });
    for i in 1..16u8 {
        pal.push(Rgba { r: i, g: i, b: i, a: 255 });
    }
    pal
}

// One subpicture block whose two fields are each a single fill command of
// colour index 3; the subpalette maps index 0 of the idx palette there.
fn fill_block() -> Vec<u8> {
    vec![
        0x00, 0x1F, // packet size: the whole block
        0x00, 0x08, // data packet ends at byte 8
        0x00, 0x03, // even field: fill the line with colour 3
        0x00, 0x03, // odd field: fill the line with colour 3
        0x00, 0x00, // sequence date
        0x00, 0x08, // next sequence: itself
        0x03, 0x01, 0x23, // colour indices 0,1,2,3
        0x04, 0xFF, 0xFF, // alphas 15,15,15,15
        0x05, 0x00, 0x00, 0x01, 0x00, 0x00, 0x01, // rect 0..1 x 0..1
        0x06, 0x00, 0x04, 0x00, 0x06, // field pointers
        0xFF, // end of sequence
    ]
}

#[test]
fn vob_fill_block_decodes_to_reversed_palette() {
    let pal = sixteen_palette();
    let bitmap = parse_block(&fill_block(), &pal).unwrap().unwrap();
    assert_eq!(bitmap.width, 2);
    assert_eq!(bitmap.height, 2);
    assert_eq!(bitmap.pixels.len(), 2 * 2 * 4);
    // colour 3 indexes the subpalette as 3 - 3 = 0: idx colour 0, opaque
    for p in 0..4 {
        assert_eq!(bitmap.pixels[4 * p], 30); // B
        assert_eq!(bitmap.pixels[4 * p + 1], 20); // G
        assert_eq!(bitmap.pixels[4 * p + 2], 10); // R
        assert_eq!(bitmap.pixels[4 * p + 3], 255); // A
    }
}

#[test]
fn vob_unknown_opcode_is_reported() {
    let mut block = fill_block();
    block[12] = 0x99; // the colour command becomes a foreign opcode
    match parse_block(&block, &sixteen_palette()) {
        Err(e) => assert_eq!(e, SubError::UnknownSpuOpcode),
        Ok(_) => panic!("expected an error"),
    }
}

#[test]
fn vob_wrong_packet_size_is_malformed() {
    let mut block = fill_block();
    block[1] = 0x10; // packet size no longer matches the payload
    match parse_block(&block, &sixteen_palette()) {
        Err(e) => assert_eq!(e, SubError::MalformedSpu),
        Ok(_) => panic!("expected an error"),
    }
}

#[test]
fn idx_sidecar_parses_size_and_palette() {
    let mut text = String::from("# comment line\nsize: 720x480\n");
    text.push_str("palette: 0a141e");
    for _ in 0..15 {
        text.push_str(", 0a141e");
    }
    text.push('\n');
    let (w, h, pal) = parse_idx(text.as_bytes()).unwrap();
    assert_eq!(w, 720);
    assert_eq!(h, 480);
    assert_eq!(pal.len(), 16);
    assert_eq!(pal[0], Rgba { r: 0x0a, g: 0x14, b: 0x1e, a: 255 });
}

#[test]
fn idx_sidecar_without_palette_is_malformed() {
    let text = "size: 720x480\n";
    assert_eq!(parse_idx(text.as_bytes()).unwrap_err(), SubError::MalformedIdx);
}

// One palette definition (a single near-white entry) and one 4x2 object
// whose pixels all carry that entry's id.
fn pgs_block() -> Vec<u8> {
    let mut data = vec![
        0x14, 0x00, 0x07, // palette definition, 7 bytes
        0x00, 0x00, // palette id, version
        0x01, 0xEB, 0x80, 0x80, 0xFF, // entry 1: Y=235, Cr=128, Cb=128, A=255
        0x15, 0x00, 0x17, // object definition, 23 bytes
        0x00, 0x01, // object id
        0x00, // version
        0x00, // last-in-sequence flag
        0x00, 0x00, 0x0C, // data length
        0x00, 0x04, // width 4
        0x00, 0x02, // height 2
    ];
    for _ in 0..2 {
        data.extend_from_slice(&[0x01, 0x01, 0x01, 0x01, 0x00, 0x00]);
    }
    data
}

#[test]
fn pgs_object_decodes_through_bt601() {
    let bitmap = parse_segments(&pgs_block()).unwrap().unwrap();
    assert_eq!(bitmap.width, 4);
    assert_eq!(bitmap.height, 2);
    assert_eq!(bitmap.pixels.len(), 4 * 2 * 4);
    // Y=235, Cb=Cr=128: each channel is 1164*219/1000 = 254, truncated
    for p in 0..8 {
        assert_eq!(bitmap.pixels[4 * p], 254);
        assert_eq!(bitmap.pixels[4 * p + 1], 254);
        assert_eq!(bitmap.pixels[4 * p + 2], 254);
        assert_eq!(bitmap.pixels[4 * p + 3], 255);
    }
}

#[test]
fn pgs_object_before_palette_is_skipped() {
    let data = &pgs_block()[10..]; // the object segment alone
    assert_eq!(parse_segments(data).unwrap().is_none(), true);
}

#[test]
fn pgs_unknown_segment_type_is_malformed() {
    let mut data = pgs_block();
    data[0] = 0x42;
    match parse_segments(&data) {
        Err(e) => assert_eq!(e, SubError::MalformedSegment),
        Ok(_) => panic!("expected an error"),
    }
}

#[test]
fn pgs_short_row_is_malformed() {
    let mut data = pgs_block();
    // first row now covers three pixels instead of four
    data[25] = 0x00;
    data[26] = 0x00;
    match parse_segments(&data) {
        Err(e) => assert_eq!(e, SubError::MalformedSegment),
        Ok(_) => panic!("expected an error"),
    }
}

#[test]
fn blend_flattens_alpha_over_black() {
    let mut b = Bitmap::new(1, 1, vec![100, 200, 40, 128]);
    blend_with_color(&mut b, &Rgba { r: 0, g: 0, b: 0, a: 255 });
    // dst = src * 128 / 255 for each channel, alpha forced opaque
    assert_eq!(b.pixels, vec![50, 100, 20, 255]);
}

#[test]
fn scale_image_upsamples_by_half() {
    let pixels = vec![
        1, 1, 1, 1, 2, 2, 2, 2, //
        3, 3, 3, 3, 4, 4, 4, 4,
    ];
    let b = Bitmap::new(2, 2, pixels);
    let s = scale_image(&b);
    assert_eq!(s.width, 3);
    assert_eq!(s.height, 3);
    // nearest neighbour: source coordinate is floor(2*dst/3)
    assert_eq!(&s.pixels[0..4], &[1, 1, 1, 1]);
    assert_eq!(&s.pixels[8..12], &[2, 2, 2, 2]);
    assert_eq!(&s.pixels[32..36], &[4, 4, 4, 4]);
}

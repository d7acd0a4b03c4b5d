use submatch::cli::{DumpType, FileType};
use submatch::errors::SubError;
use submatch::matcher::{
    build_match_report, compute_distances, flatten_subtitles, normalize_to_shortest_string,
    substring,
};
use submatch::mkv::{decode_bitmap, Block, KnownEncoding, KnownLanguage, MkvFile};
use submatch::srt::parse_n_subtitles;
use submatch::text::{accept_ocr_text, sanitize_text};

#[test]
fn sanitize_strips_spans_and_punctuation() {
    assert_eq!(
        sanitize_text("[music] Hello, WORLD! <i>test</i> (inaudible)"),
        "hello world test"
    );
}

#[test]
fn sanitize_drops_credit_lines() {
    assert_eq!(sanitize_text("Subtitled by Acme"), "");
}

#[test]
fn sanitize_removes_speaker_labels() {
    assert_eq!(sanitize_text("POPEYE: hello there"), " hello there".trim());
    assert_eq!(sanitize_text("ab1c: one"), "ab1 one");
}

#[test]
fn sanitize_is_idempotent_on_ordinary_text() {
    let once = sanitize_text("[music] Hello, WORLD! <i>test</i> (inaudible)");
    assert_eq!(sanitize_text(&once), once);
}

#[test]
fn accept_ocr_drops_blank_and_credit_text() {
    assert_eq!(accept_ocr_text("   "), None);
    assert_eq!(accept_ocr_text("Subtitled by Acme"), None);
    assert_eq!(accept_ocr_text(" Hello! "), Some(String::from("hello")));
}

#[test]
fn normalize_truncates_to_shorter_character_count() {
    let (a, b) = normalize_to_shortest_string("abcdef", "xyz");
    assert_eq!(a, "abc");
    assert_eq!(b, "xyz");
    assert_eq!(substring("hello", 2), "he");
}

#[test]
fn flatten_joins_with_single_spaces() {
    let files = vec![(
        String::from("a.mkv"),
        vec![String::from("one"), String::from("two"), String::from("three")],
    )];
    let flat = flatten_subtitles(&files);
    assert_eq!(flat[0].0, "a.mkv");
    assert_eq!(flat[0].1, "one two three");
}

#[test]
fn distances_are_exact_and_sorted() {
    let subs = vec![(String::from("in.mkv"), String::from("kitten"))];
    let refs = vec![
        (String::from("far.srt"), String::from("saturn")),
        (String::from("near.srt"), String::from("kittej")),
    ];
    let d = compute_distances(&subs, &refs);
    assert_eq!(d.len(), 1);
    // both pairs share length six, so no truncation happens;
    // kitten/kittej differ in one place, kitten/saturn in four
    assert_eq!(d[0].1[0], (String::from("near.srt"), 1));
    assert_eq!(d[0].1[1], (String::from("far.srt"), 4));
}

#[test]
fn tie_break_keeps_reference_order() {
    let subs = vec![(String::from("in.mkv"), String::from("aa"))];
    let refs = vec![
        (String::from("p1.srt"), String::from("ab")),
        (String::from("p2.srt"), String::from("ba")),
    ];
    let d = compute_distances(&subs, &refs);
    assert_eq!(d[0].1[0].0, "p1.srt");
    assert_eq!(d[0].1[1].0, "p2.srt");
}

#[test]
fn zero_cutoff_leaves_everything_unmapped() {
    let subs = vec![(String::from("in.mkv"), String::from("abcd"))];
    let refs = vec![(String::from("p1.srt"), String::from("abce"))];
    let d = compute_distances(&subs, &refs);
    let report = build_match_report(&d, &refs, Some(0));
    assert!(report.mappings.is_empty());
    assert_eq!(report.unmapped, vec![String::from("p1.srt")]);
    assert!(report.duplicates.is_empty());
    assert!(report.high_confidence);
}

#[test]
fn duplicate_references_lower_confidence() {
    let subs = vec![
        (String::from("a.mkv"), String::from("abcd")),
        (String::from("b.mkv"), String::from("abcf")),
    ];
    let refs = vec![
        (String::from("p1.srt"), String::from("abce")),
        (String::from("p2.srt"), String::from("zzzz")),
    ];
    let d = compute_distances(&subs, &refs);
    let report = build_match_report(&d, &refs, None);
    assert_eq!(report.mappings.len(), 2);
    assert_eq!(report.duplicates, vec![(String::from("p1.srt"), 2)]);
    assert_eq!(report.unmapped, vec![String::from("p2.srt")]);
    assert!(!report.high_confidence);
}

#[test]
fn srt_reader_takes_first_n_sanitised_cues() {
    let text = "1\r\n00:00:01 --> 00:00:02\r\nHello,\r\nWORLD!\r\n\r\n\
                2\r\n00:00:03 --> 00:00:04\r\nSubtitled by Acme\r\n\r\n\
                3\r\n00:00:05 --> 00:00:06\r\nsecond line\r\n\r\n\
                4\r\n00:00:07 --> 00:00:08\r\nnever reached\r\n";
    let subs = parse_n_subtitles(text.as_bytes(), 2);
    assert_eq!(subs, vec![String::from("hello world"), String::from("second line")]);
}

#[test]
fn cli_words_parse_exactly() {
    assert!(matches!(DumpType::from_str("png"), Ok(DumpType::Png)));
    assert!(matches!(DumpType::from_str("bgra8"), Ok(DumpType::Bgra8)));
    assert!(matches!(DumpType::from_str("block"), Ok(DumpType::Block)));
    assert!(DumpType::from_str("gif").is_err());
    assert!(matches!(FileType::from_str("mkv"), Ok(FileType::Mkv)));
    assert!(matches!(FileType::from_str("srt"), Ok(FileType::Srt)));
    assert!(FileType::from_str("sub").is_err());
}

#[test]
fn language_tags_fold_to_english() {
    let a = KnownLanguage::from_tag("en");
    let b = KnownLanguage::from_tag("eng");
    let c = KnownLanguage::from_tag("en-US");
    let d = KnownLanguage::from_tag("fre");
    assert_eq!(a.to_string(), "English");
    assert_eq!(b.to_string(), "English");
    assert_eq!(c.to_string(), "English");
    assert_eq!(d.to_string(), "fre");
}

#[test]
fn vobsub_without_private_data_is_missing_codec_private() {
    match KnownEncoding::from_tag_and_data("S_VOBSUB", None) {
        Err(e) => assert_eq!(e, SubError::MissingCodecPrivate),
        Ok(_) => panic!("expected an error"),
    }
}

fn push_vint(out: &mut Vec<u8>, size: usize) {
    if size < 0x7F {
        out.push(0x80 | (size as u8));
    } else {
        assert!(size < 0x3FFF);
        out.push(0x40 | ((size >> 8) as u8));
        out.push((size & 0xFF) as u8);
    }
}

fn child(out: &mut Vec<u8>, id: &[u8], payload: &[u8]) {
    out.extend_from_slice(id);
    push_vint(out, payload.len());
    out.extend_from_slice(payload);
}

fn idx_bytes() -> Vec<u8> {
    let mut text = String::from("size: 720x480\npalette: 0a141e");
    for _ in 0..15 {
        text.push_str(", 0a141e");
    }
    text.push('\n');
    text.into_bytes()
}

// A container holding one English PGS track and one French VOBSUB track.
fn two_track_container() -> Vec<u8> {
    let mut entry1 = Vec::new();
    child(&mut entry1, &[0x83], &[0x11]); // track type: subtitle
    child(&mut entry1, &[0xD7], &[0x01]); // track number 1
    child(&mut entry1, &[0x22, 0xB5, 0x9C], b"eng");
    child(&mut entry1, &[0x86], b"S_HDMV/PGS");

    let mut entry2 = Vec::new();
    child(&mut entry2, &[0x83], &[0x11]);
    child(&mut entry2, &[0xD7], &[0x02]);
    child(&mut entry2, &[0x22, 0xB5, 0x9C], b"fre");
    child(&mut entry2, &[0x86], b"S_VOBSUB");
    child(&mut entry2, &[0x63, 0xA2], &idx_bytes());

    let mut tracks = Vec::new();
    child(&mut tracks, &[0xAE], &entry1);
    child(&mut tracks, &[0xAE], &entry2);

    let mut segment_body = Vec::new();
    segment_body.extend_from_slice(&[0x16, 0x54, 0xAE, 0x6B]);
    push_vint(&mut segment_body, tracks.len());
    segment_body.extend_from_slice(&tracks);

    let mut data = Vec::new();
    data.extend_from_slice(&[0x18, 0x53, 0x80, 0x67]);
    push_vint(&mut data, segment_body.len());
    data.extend_from_slice(&segment_body);
    data
}

#[test]
fn list_tracks_reports_both_languages_and_codecs() {
    let file = match MkvFile::new(two_track_container()) {
        Ok(f) => f,
        Err(_) => panic!("the container should parse"),
    };
    let tracks = file.tracks();
    assert_eq!(tracks.len(), 2);
    assert_eq!(tracks[0].track_number, 1);
    assert_eq!(tracks[0].language.to_string(), "English");
    assert_eq!(tracks[0].encoding.to_string(), "S_HDMV/PGS");
    assert_eq!(tracks[1].track_number, 2);
    assert_eq!(tracks[1].language.to_string(), "fre");
    assert_eq!(tracks[1].encoding.to_string(), "S_VOBSUB");
    match &tracks[1].encoding {
        KnownEncoding::VOB { width, height, palette } => {
            assert_eq!(*width, 720);
            assert_eq!(*height, 480);
            assert_eq!(palette.len(), 16);
        },
        _ => panic!("expected a parsed VOBSUB track"),
    }
}

// One palette definition and a 4x2 object, as one PGS block payload.
fn pgs_payload() -> Vec<u8> {
    let mut data = vec![
        0x14, 0x00, 0x07, 0x00, 0x00, 0x01, 0xEB, 0x80, 0x80, 0xFF, 0x15, 0x00, 0x17, 0x00,
        0x01, 0x00, 0x00, 0x00, 0x00, 0x0C, 0x00, 0x04, 0x00, 0x02,
    ];
    for _ in 0..2 {
        data.extend_from_slice(&[0x01, 0x01, 0x01, 0x01, 0x00, 0x00]);
    }
    data
}

#[test]
fn subtitle_stream_decodes_a_block_from_the_container() {
    let mut data = two_track_container();
    // a cluster holding one simple block of track 1
    let mut frame = vec![0x81, 0x00, 0x00, 0x00]; // track 1, timestamp, no lacing
    frame.extend_from_slice(&pgs_payload());
    let mut cluster_body = Vec::new();
    child(&mut cluster_body, &[0xA3], &frame);
    data.extend_from_slice(&[0x1F, 0x43, 0xB6, 0x75]);
    push_vint(&mut data, cluster_body.len());
    data.extend_from_slice(&cluster_body);

    let file = match MkvFile::new(data) {
        Ok(f) => f,
        Err(_) => panic!("the container should parse"),
    };
    let mut iter = file.subtitle_iter(KnownLanguage::English).unwrap();
    let bitmap = match iter.next_bitmap() {
        Ok(Some(b)) => b,
        _ => panic!("expected a decoded frame"),
    };
    assert_eq!(bitmap.width, 4);
    assert_eq!(bitmap.height, 2);
    match iter.next_bitmap() {
        Ok(None) => {},
        _ => panic!("the stream should end"),
    }
}

#[test]
fn laced_blocks_are_unsupported() {
    let block = Block {
        track_number: 1,
        lacing: Some(submatch::mkv::Lacing::Xiph),
        payload: Vec::new(),
    };
    let file = match MkvFile::new(two_track_container()) {
        Ok(f) => f,
        Err(_) => panic!("the container should parse"),
    };
    match decode_bitmap(&block, &file.tracks()[0]) {
        Err(e) => assert_eq!(e, SubError::UnsupportedLacing),
        Ok(_) => panic!("expected an error"),
    }
}

#[test]
fn truncated_container_is_malformed() {
    let mut data = two_track_container();
    data.truncate(data.len() - 3);
    match MkvFile::new(data) {
        Err(e) => assert_eq!(e, SubError::MalformedContainer),
        Ok(_) => panic!("expected an error"),
    }
}

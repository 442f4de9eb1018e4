use cull::tiff::{
    jpeg_meta, parse, ColorSpace, Endian, Preview, TiffInfo, TAG_COLOR_SPACE, TAG_EXIF_IFD,
    TAG_JPEG_LENGTH, TAG_JPEG_OFFSET, TAG_ORIENTATION,
};


#[test]
fn rejects_non_tiff() {
    assert!(parse(b"not a tiff at all").is_none());
    assert!(parse(b"").is_none());
    // Correct byte-order mark but wrong magic.
    assert!(parse(b"II\x00\x00\x08\x00\x00\x00").is_none());
}

#[test]
fn truncated_input_does_not_panic() {
    let full = b"II\x2a\x00\x08\x00\x00\x00\x01\x00\x12\x01\x03\x00\x01\x00\x00\x00\x08\x00\x00\x00\x00\x00\x00\x00";
    // Every prefix must be handled gracefully.
    for n in 0..full.len() {
        let _ = parse(&full[..n]);
    }
}

#[test]
fn reads_orientation_from_minimal_ifd() {
    // One IFD, one entry: Orientation (type SHORT) = 8.
    let mut d = Vec::new();
    d.extend_from_slice(b"II\x2a\x00");
    d.extend_from_slice(&8u32.to_le_bytes()); // IFD0 at offset 8
    d.extend_from_slice(&1u16.to_le_bytes()); // 1 entry
    d.extend_from_slice(&TAG_ORIENTATION.to_le_bytes());
    d.extend_from_slice(&3u16.to_le_bytes()); // SHORT
    d.extend_from_slice(&1u32.to_le_bytes()); // count
    d.extend_from_slice(&8u16.to_le_bytes()); // value
    d.extend_from_slice(&0u16.to_le_bytes()); // padding
    d.extend_from_slice(&0u32.to_le_bytes()); // no next IFD

    let info = parse(&d).expect("should parse");
    assert_eq!(info.orientation, 8);
    assert!(info.previews.is_empty());
}

#[test]
fn ignores_preview_pointer_that_is_not_jpeg() {
    // JPEGInterchangeFormat/Length present but the target bytes are not a JPEG.
    let mut d = Vec::new();
    d.extend_from_slice(b"II\x2a\x00");
    d.extend_from_slice(&8u32.to_le_bytes());
    d.extend_from_slice(&2u16.to_le_bytes());
    for (tag, val) in [(TAG_JPEG_OFFSET, 64u32), (TAG_JPEG_LENGTH, 16u32)] {
        d.extend_from_slice(&tag.to_le_bytes());
        d.extend_from_slice(&4u16.to_le_bytes()); // LONG
        d.extend_from_slice(&1u32.to_le_bytes());
        d.extend_from_slice(&val.to_le_bytes());
    }
    d.extend_from_slice(&0u32.to_le_bytes());
    d.resize(128, 0xAA); // target region is filler, not FFD8FF

    let info = parse(&d).expect("should parse");
    assert!(
        info.previews.is_empty(),
        "must not trust a pointer that isn't a JPEG"
    );
}

#[test]
fn ifd_chain_loop_terminates() {
    // IFD0's "next" points back at itself.
    let mut d = Vec::new();
    d.extend_from_slice(b"II\x2a\x00");
    d.extend_from_slice(&8u32.to_le_bytes());
    d.extend_from_slice(&0u16.to_le_bytes()); // zero entries
    d.extend_from_slice(&8u32.to_le_bytes()); // next = self
    let info = parse(&d).expect("should parse");
    assert_eq!(info.orientation, 1);
}

#[test]
fn largest_preview_prefers_pixel_count() {
    let info = TiffInfo {
        orientation: 1,
        color_space: None,
        previews: vec![
            Preview { offset: 0, len: 9_000, width: 160, height: 120, orientation: 1 },
            Preview { offset: 0, len: 5_000_000, width: 6192, height: 4128, orientation: 8 },
            Preview { offset: 0, len: 460_000, width: 1616, height: 1080, orientation: 1 },
        ],
    };
    let p = info.largest_preview().unwrap();
    assert_eq!((p.width, p.height), (6192, 4128));
}

#[test]
fn jpeg_meta_handles_garbage() {
    assert_eq!(jpeg_meta(b"").orientation, 1);
    assert_eq!(jpeg_meta(b"\xff\xd8").orientation, 1);
    // Declared segment length runs past the buffer.
    assert_eq!(jpeg_meta(b"\xff\xd8\xff\xe1\xff\xff").orientation, 1);
}

/// One IFD entry.
fn entry(d: &mut Vec<u8>, tag: u16, kind: u16, value: u32) {
    d.extend_from_slice(&tag.to_le_bytes());
    d.extend_from_slice(&kind.to_le_bytes());
    d.extend_from_slice(&1u32.to_le_bytes());
    d.extend_from_slice(&value.to_le_bytes());
}

/// An IFD with an orientation and an EXIF IFD that names a colour space.
fn with_exif(colour_space: u32) -> Vec<u8> {
    let mut d = Vec::new();
    d.extend_from_slice(b"II\x2a\x00");
    d.extend_from_slice(&8u32.to_le_bytes());
    d.extend_from_slice(&2u16.to_le_bytes());
    entry(&mut d, TAG_ORIENTATION, 3, 6);
    entry(&mut d, TAG_EXIF_IFD, 4, 38);
    d.extend_from_slice(&0u32.to_le_bytes());
    assert_eq!(d.len(), 38);
    d.extend_from_slice(&1u16.to_le_bytes());
    entry(&mut d, TAG_COLOR_SPACE, 3, colour_space);
    d.extend_from_slice(&0u32.to_le_bytes());
    d
}

#[test]
fn exif_colour_space_is_read() {
    let info = parse(&with_exif(2)).unwrap();
    assert_eq!(info.orientation, 6);
    assert_eq!(info.color_space, Some(ColorSpace::AdobeRgb));
    assert_eq!(parse(&with_exif(1)).unwrap().color_space, Some(ColorSpace::Srgb));
}

#[test]
fn an_exif_directory_that_points_at_itself_terminates() {
    let mut d = Vec::new();
    d.extend_from_slice(b"II\x2a\x00");
    d.extend_from_slice(&8u32.to_le_bytes());
    d.extend_from_slice(&2u16.to_le_bytes());
    entry(&mut d, TAG_EXIF_IFD, 4, 8);
    entry(&mut d, TAG_ORIENTATION, 3, 3);
    d.extend_from_slice(&0u32.to_le_bytes());
    assert_eq!(parse(&d).unwrap().orientation, 3);
}

#[test]
fn exif_directories_that_point_at_each_other_are_read_in_no_time() {
    // Twenty IFDs of twenty EXIF pointers each, to all of them.
    let n = 20u32;
    let at = |k: u32| 8 + k * (2 + 12 * n + 4);
    let mut d = Vec::new();
    d.extend_from_slice(b"II\x2a\x00");
    d.extend_from_slice(&8u32.to_le_bytes());
    for _ in 0..n {
        d.extend_from_slice(&(n as u16).to_le_bytes());
        for k in 0..n {
            entry(&mut d, TAG_EXIF_IFD, 4, at(k));
        }
        d.extend_from_slice(&0u32.to_le_bytes());
    }
    assert_eq!(parse(&d).unwrap().color_space, None);
}

#[test]
fn a_long_chain_of_exif_directories_is_cut_off() {
    // Each points at the next; the last one that is read declares the colour space.
    let build = |n: u32| {
        let mut d = Vec::new();
        d.extend_from_slice(b"II\x2a\x00");
        d.extend_from_slice(&8u32.to_le_bytes());
        for k in 0..n {
            d.extend_from_slice(&1u16.to_le_bytes());
            entry(&mut d, TAG_EXIF_IFD, 4, 8 + (k + 1) * 18);
            d.extend_from_slice(&0u32.to_le_bytes());
        }
        d.extend_from_slice(&1u16.to_le_bytes());
        entry(&mut d, TAG_COLOR_SPACE, 3, 2);
        d.extend_from_slice(&0u32.to_le_bytes());
        d
    };
    assert_eq!(parse(&build(512)).unwrap().color_space, Some(ColorSpace::AdobeRgb));
    assert_eq!(parse(&build(513)).unwrap().color_space, None);
    assert_eq!(parse(&build(100_000)).unwrap().color_space, None);
}

#[test]
fn an_ifd_can_point_at_as_many_exif_directories_as_it_has_entries() {
    // The last one decides.
    let n = 512u32;
    let at = |k: u32| 8 + (2 + 12 * n + 4) + k * 18;
    let mut d = Vec::new();
    d.extend_from_slice(b"II\x2a\x00");
    d.extend_from_slice(&8u32.to_le_bytes());
    d.extend_from_slice(&(n as u16).to_le_bytes());
    for k in 0..n {
        entry(&mut d, TAG_EXIF_IFD, 4, at(k));
    }
    d.extend_from_slice(&0u32.to_le_bytes());
    for k in 0..n {
        d.extend_from_slice(&1u16.to_le_bytes());
        entry(&mut d, TAG_COLOR_SPACE, 3, if k + 1 < n { 1 } else { 2 });
        d.extend_from_slice(&0u32.to_le_bytes());
    }
    assert_eq!(parse(&d).unwrap().color_space, Some(ColorSpace::AdobeRgb));
}

#[test]
fn both_byte_orders_are_read() {
    assert_eq!(Endian::Little.u16(&[1, 2]), Some(0x0201));
    assert_eq!(Endian::Big.u16(&[1, 2]), Some(0x0102));
    assert_eq!(Endian::Little.u32(&[1, 2, 3, 4]), Some(0x0403_0201));
    assert_eq!(Endian::Big.u32(&[1, 2, 3, 4]), Some(0x0102_0304));
    assert_eq!(Endian::Big.u32(&[1, 2, 3]), None);
}

#[test]
fn jpeg_metadata_comes_from_its_segments() {
    let mut d = vec![0xFF, 0xD8];
    let mut body = b"Exif\0\0".to_vec();
    body.extend_from_slice(&with_exif(2));
    d.extend_from_slice(&[0xFF, 0xE1]);
    d.extend_from_slice(&((body.len() + 2) as u16).to_be_bytes());
    d.extend_from_slice(&body);
    // A profile in two chunks, the second one first.
    for (n, bytes) in [(2u8, [3u8, 4]), (1, [1, 2])] {
        let mut chunk = b"ICC_PROFILE\0".to_vec();
        chunk.extend_from_slice(&[n, 2]);
        chunk.extend_from_slice(&bytes);
        d.extend_from_slice(&[0xFF, 0xE2]);
        d.extend_from_slice(&((chunk.len() + 2) as u16).to_be_bytes());
        d.extend_from_slice(&chunk);
    }
    d.extend_from_slice(&[0xFF, 0xDA]);

    let meta = jpeg_meta(&d);
    assert_eq!(meta.orientation, 6);
    assert_eq!(meta.color_space, Some(ColorSpace::AdobeRgb));
    assert_eq!(meta.icc, Some(vec![1, 2, 3, 4]));
}

#[test]
fn of_equally_large_previews_the_longest_wins() {
    let p = |len, width| Preview { offset: 0, len, width, height: 10, orientation: 1 };
    let info = TiffInfo {
        orientation: 1,
        color_space: None,
        previews: vec![p(5, 20), p(9, 20), p(100, 10)],
    };
    assert_eq!(info.largest_preview().unwrap().len, 9);
    assert_eq!(p(1, 6192).pixels(), 61_920);
}

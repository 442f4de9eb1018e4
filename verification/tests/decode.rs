use cull::decode::{
    decode, decode_jpeg_decoder, decode_reusing, decode_zune, fit, fit_within,
    gray_to_rgba, jpeg_dimensions, jpeg_image, locate, probe_bytes, rgb_to_rgba,
    scale_denominator, zune_image, BufferPool, Decoder, Error, JpegFrame, PixelFormat, ZuneFrame,
};
use cull::tiff::{ColorSpace, TAG_JPEG_LENGTH, TAG_JPEG_OFFSET, TAG_ORIENTATION};

/// A 17x9 picture: red grows to the right, green downwards.
const TINY_JPEG: &[u8] = &[
    0xff, 0xd8, 0xff, 0xe0, 0x00, 0x10, 0x4a, 0x46, 0x49, 0x46, 0x00, 0x01, 0x01, 0x00, 0x00, 0x01,
    0x00, 0x01, 0x00, 0x00, 0xff, 0xdb, 0x00, 0x43, 0x00, 0x10, 0x10, 0x10, 0x10, 0x10, 0x10, 0x10,
    0x10, 0x10, 0x10, 0x10, 0x10, 0x10, 0x10, 0x10, 0x10, 0x10, 0x10, 0x10, 0x10, 0x10, 0x10, 0x10,
    0x10, 0x10, 0x10, 0x10, 0x10, 0x10, 0x10, 0x10, 0x10, 0x10, 0x10, 0x10, 0x10, 0x10, 0x10, 0x10,
    0x10, 0x10, 0x10, 0x10, 0x10, 0x10, 0x10, 0x10, 0x10, 0x10, 0x10, 0x10, 0x10, 0x10, 0x10, 0x10,
    0x10, 0x10, 0x10, 0x10, 0x10, 0x10, 0x10, 0x10, 0x10, 0xff, 0xc0, 0x00, 0x11, 0x08, 0x00, 0x09,
    0x00, 0x11, 0x03, 0x01, 0x11, 0x00, 0x02, 0x11, 0x00, 0x03, 0x11, 0x00, 0xff, 0xc4, 0x00, 0x18,
    0x00, 0x00, 0x00, 0x05, 0x00, 0x00, 0x00, 0x00, 0x00, 0x00, 0x00, 0x00, 0x00, 0x00, 0x00, 0x00,
    0x00, 0x03, 0x04, 0x05, 0x06, 0x07, 0xff, 0xc4, 0x00, 0x1f, 0x10, 0x00, 0x00, 0x00, 0x0c, 0x00,
    0x00, 0x00, 0x00, 0x00, 0x00, 0x00, 0x00, 0x00, 0x00, 0x00, 0x00, 0x00, 0x02, 0x04, 0x05, 0x14,
    0x15, 0x21, 0x31, 0x41, 0x61, 0x62, 0xa1, 0xff, 0xda, 0x00, 0x0c, 0x03, 0x01, 0x00, 0x02, 0x00,
    0x03, 0x00, 0x00, 0x3f, 0x00, 0x4f, 0x10, 0xd9, 0x4d, 0x81, 0x7c, 0xac, 0xad, 0xed, 0x04, 0xe2,
    0x62, 0xd7, 0x34, 0x0d, 0x08, 0x6c, 0xa6, 0xc0, 0xda, 0x2b, 0x2b, 0x7b, 0x41, 0xc2, 0x4c, 0x5a,
    0xe6, 0x80, 0xca, 0xca, 0x6c, 0x09, 0x49, 0x73, 0x05, 0x24, 0xd9, 0x82, 0xa8, 0x80, 0xe5, 0x2b,
    0x88, 0x46, 0x44, 0xd0, 0x03, 0x42, 0x03, 0x68, 0xae, 0x20, 0xe1, 0x26, 0x80, 0x0c, 0x09, 0x40,
    0xa4, 0x1f, 0xff, 0xd9,
];

/// A 16x16 picture of one colour, near (200, 60, 20).
const FLAT_JPEG: &[u8] = &[
    0xff, 0xd8, 0xff, 0xe0, 0x00, 0x10, 0x4a, 0x46, 0x49, 0x46, 0x00, 0x01, 0x01, 0x00, 0x00, 0x01,
    0x00, 0x01, 0x00, 0x00, 0xff, 0xdb, 0x00, 0x43, 0x00, 0x10, 0x10, 0x10, 0x10, 0x10, 0x10, 0x10,
    0x10, 0x10, 0x10, 0x10, 0x10, 0x10, 0x10, 0x10, 0x10, 0x10, 0x10, 0x10, 0x10, 0x10, 0x10, 0x10,
    0x10, 0x10, 0x10, 0x10, 0x10, 0x10, 0x10, 0x10, 0x10, 0x10, 0x10, 0x10, 0x10, 0x10, 0x10, 0x10,
    0x10, 0x10, 0x10, 0x10, 0x10, 0x10, 0x10, 0x10, 0x10, 0x10, 0x10, 0x10, 0x10, 0x10, 0x10, 0x10,
    0x10, 0x10, 0x10, 0x10, 0x10, 0x10, 0x10, 0x10, 0x10, 0xff, 0xc0, 0x00, 0x11, 0x08, 0x00, 0x10,
    0x00, 0x10, 0x03, 0x01, 0x11, 0x00, 0x02, 0x11, 0x00, 0x03, 0x11, 0x00, 0xff, 0xc4, 0x00, 0x17,
    0x00, 0x00, 0x00, 0x04, 0x00, 0x00, 0x00, 0x00, 0x00, 0x00, 0x00, 0x00, 0x00, 0x00, 0x00, 0x00,
    0x00, 0x00, 0x04, 0x05, 0x06, 0xff, 0xc4, 0x00, 0x14, 0x10, 0x01, 0x00, 0x00, 0x00, 0x00, 0x00,
    0x00, 0x00, 0x00, 0x00, 0x00, 0x00, 0x00, 0x00, 0x00, 0x00, 0x00, 0xff, 0xda, 0x00, 0x0c, 0x03,
    0x01, 0x00, 0x02, 0x00, 0x03, 0x00, 0x00, 0x3f, 0x00, 0x20, 0x49, 0x39, 0x40, 0x00, 0x00, 0x00,
    0x01, 0xff, 0xd9,
];

/// A 16x16 picture of one grey, near 90.
const GRAY_JPEG: &[u8] = &[
    0xff, 0xd8, 0xff, 0xe0, 0x00, 0x10, 0x4a, 0x46, 0x49, 0x46, 0x00, 0x01, 0x01, 0x00, 0x00, 0x01,
    0x00, 0x01, 0x00, 0x00, 0xff, 0xdb, 0x00, 0x43, 0x00, 0x10, 0x10, 0x10, 0x10, 0x10, 0x10, 0x10,
    0x10, 0x10, 0x10, 0x10, 0x10, 0x10, 0x10, 0x10, 0x10, 0x10, 0x10, 0x10, 0x10, 0x10, 0x10, 0x10,
    0x10, 0x10, 0x10, 0x10, 0x10, 0x10, 0x10, 0x10, 0x10, 0x10, 0x10, 0x10, 0x10, 0x10, 0x10, 0x10,
    0x10, 0x10, 0x10, 0x10, 0x10, 0x10, 0x10, 0x10, 0x10, 0x10, 0x10, 0x10, 0x10, 0x10, 0x10, 0x10,
    0x10, 0x10, 0x10, 0x10, 0x10, 0x10, 0x10, 0x10, 0x10, 0xff, 0xc0, 0x00, 0x0b, 0x08, 0x00, 0x10,
    0x00, 0x10, 0x01, 0x01, 0x11, 0x00, 0xff, 0xc4, 0x00, 0x15, 0x00, 0x00, 0x02, 0x00, 0x00, 0x00,
    0x00, 0x00, 0x00, 0x00, 0x00, 0x00, 0x00, 0x00, 0x00, 0x00, 0x00, 0x00, 0x05, 0xff, 0xc4, 0x00,
    0x14, 0x10, 0x01, 0x00, 0x00, 0x00, 0x00, 0x00, 0x00, 0x00, 0x00, 0x00, 0x00, 0x00, 0x00, 0x00,
    0x00, 0x00, 0x00, 0xff, 0xda, 0x00, 0x08, 0x01, 0x01, 0x00, 0x00, 0x3f, 0x00, 0x58, 0x00, 0x7f,
    0xff, 0xd9,
];

#[test]
fn pool_reuses_the_same_allocation() {
    let mut pool = BufferPool::new(2);
    let mut buf = pool.take();
    assert!(buf.is_empty(), "a cold pool hands out nothing to reuse");

    buf = fit(buf, 4096);
    let addr = buf.as_ptr();
    pool.give(buf);
    assert_eq!(pool.spare(), 1);

    // Same allocation back, and already the right length so `fit` does no work.
    let again = fit(pool.take(), 4096);
    assert_eq!(again.as_ptr(), addr, "the buffer must be recycled, not realloced");
    assert_eq!(again.len(), 4096);
}

#[test]
fn pool_returns_buffers_at_full_length_so_fit_is_free() {
    // The saving depends on this: a cleared buffer would be regrown, memsetting
    // 102 MB and giving most of the benefit back.
    let mut pool = BufferPool::new(1);
    pool.give(vec![7u8; 1024]);
    let buf = pool.take();
    assert_eq!(buf.len(), 1024, "must come back sized, not cleared");
    assert_eq!(buf[0], 7, "and must not have been zeroed on the way");
}

#[test]
fn pool_is_bounded_and_ignores_empty_buffers() {
    let mut pool = BufferPool::new(2);
    for _ in 0..5 {
        pool.give(vec![0u8; 64]);
    }
    assert_eq!(pool.spare(), 2, "the limit is what bounds memory");

    pool.give(Vec::new());
    assert_eq!(pool.spare(), 2, "an empty buffer is not worth keeping");
}

#[test]
fn pool_keeps_buffers_by_what_they_have_allocated() {
    // Emptied but still allocated: worth keeping.
    let mut pool = BufferPool::new(2);
    let mut buf = vec![1u8; 64];
    buf.clear();
    pool.give(buf);
    assert_eq!(pool.spare(), 1);
}

#[test]
fn fit_grows_shrinks_and_leaves_matching_buffers_alone() {
    // Too small: a fresh zeroed allocation.
    assert_eq!(fit(vec![1u8; 4], 16), vec![0u8; 16]);
    // Exact: untouched, contents and all.
    assert_eq!(fit(vec![1u8; 4], 4), vec![1u8; 4]);
    // Too big: truncated in place, keeping the allocation.
    let mut big = Vec::with_capacity(64);
    big.resize(64, 1);
    let addr = big.as_ptr();
    let out = fit(big, 8);
    assert_eq!(out.len(), 8);
    assert_eq!(out.as_ptr(), addr, "shrinking must not realloc");
}

#[test]
fn decoding_into_a_pooled_buffer_matches_a_fresh_one() {
    let fresh = decode(TINY_JPEG, None, Decoder::Zune).unwrap();

    // A stale buffer of the wrong size, deliberately full of junk, must not leak
    // any of its old contents into the result.
    let scratch = vec![0xABu8; 17 * 9 * 4];
    let pooled = decode_reusing(TINY_JPEG, None, Decoder::Zune, scratch).unwrap();

    assert_eq!((pooled.width, pooled.height), (fresh.width, fresh.height));
    assert_eq!(pooled.rgba, fresh.rgba, "reuse must not change the pixels");
}

#[test]
fn decoding_gives_opaque_tightly_packed_pixels() {
    let img = decode(TINY_JPEG, None, Decoder::Zune).unwrap();
    assert_eq!((img.width, img.height), (17, 9));
    assert_eq!(img.rgba.len(), 17 * 9 * 4);
    assert!(img.rgba.chunks_exact(4).all(|p| p[3] == 0xFF), "opaque alpha");
    assert_eq!((img.native_width, img.native_height, img.scale_denom), (17, 9, 1));
    // Left is blue, right is red.
    assert!(img.rgba[2] > 200 && img.rgba[16 * 4] > 180);
}

fn near(a: u8, b: u8) -> bool {
    a.abs_diff(b) <= 6
}

#[test]
fn both_decoders_see_the_same_colour() {
    for which in [Decoder::Zune, Decoder::JpegDecoder] {
        let img = decode(FLAT_JPEG, None, which).unwrap();
        assert_eq!((img.width, img.height), (16, 16));
        assert_eq!(img.rgba.len(), 16 * 16 * 4);
        for p in img.rgba.chunks_exact(4) {
            assert!(near(p[0], 200) && near(p[1], 60) && near(p[2], 20), "{p:?}");
            assert_eq!(p[3], 0xFF);
        }
    }
}

#[test]
fn grey_images_are_widened() {
    for which in [Decoder::Zune, Decoder::JpegDecoder] {
        let img = decode(GRAY_JPEG, None, which).unwrap();
        assert_eq!((img.width, img.height), (16, 16));
        for p in img.rgba.chunks_exact(4) {
            assert!(near(p[0], 90), "{p:?}");
            assert_eq!((p[0], p[0], 0xFF), (p[1], p[2], p[3]));
        }
    }
}

#[test]
fn scaled_decode_halves_the_image() {
    let img = decode(FLAT_JPEG, Some((8, 8)), Decoder::JpegDecoder).unwrap();
    assert_eq!((img.width, img.height), (8, 8));
    assert_eq!((img.native_width, img.native_height, img.scale_denom), (16, 16, 2));
    assert_eq!(img.rgba.len(), 8 * 8 * 4);
    assert!(near(img.rgba[0], 200) && near(img.rgba[1], 60) && near(img.rgba[2], 20));
    // A target that half scale would undershoot leaves the size alone.
    let img = decode(FLAT_JPEG, Some((9, 8)), Decoder::JpegDecoder).unwrap();
    assert_eq!((img.width, img.height, img.scale_denom), (16, 16, 1));
}

#[test]
fn scale_denominator_never_undershoots_target() {
    // 6192x4128 native, 4K viewport: half scale is 3096x2064, still >= 2160? No --
    // 2064 < 2160, so half scale would undershoot vertically and must be rejected.
    assert_eq!(scale_denominator(6192, 4128, 3840, 2160), 1);
    // A 1440p viewport does allow half scale.
    assert_eq!(scale_denominator(6192, 4128, 2560, 1440), 2);
    // A small viewport allows a deeper reduction.
    assert_eq!(scale_denominator(6192, 4128, 800, 600), 4);
    // Never exceeds 8.
    assert_eq!(scale_denominator(6192, 4128, 1, 1), 8);
    // Degenerate targets are ignored.
    assert_eq!(scale_denominator(6192, 4128, 0, 0), 1);
}

#[test]
fn rgb_widening_sets_opaque_alpha() {
    let rgba = rgb_to_rgba(&[1, 2, 3, 4, 5, 6]);
    assert_eq!(rgba, vec![1, 2, 3, 0xFF, 4, 5, 6, 0xFF]);
}

#[test]
fn gray_widening_replicates_luma() {
    let rgba = gray_to_rgba(&[7, 8]);
    assert_eq!(rgba, vec![7, 7, 7, 0xFF, 8, 8, 8, 0xFF]);
}

#[test]
fn locate_rejects_garbage() {
    assert!(matches!(locate(b"not an image"), Err(Error::NoImage)));
    assert!(matches!(locate(b""), Err(Error::NoImage)));
}

#[test]
fn jpeg_dimensions_on_truncated_input_is_none() {
    for n in 0..12usize {
        let buf = vec![0xFFu8; n];
        assert!(jpeg_dimensions(&buf).is_none());
    }
}

#[test]
fn jpeg_dimensions_come_from_the_frame_header() {
    assert_eq!(jpeg_dimensions(TINY_JPEG), Some((17, 9)));
    assert_eq!(jpeg_dimensions(FLAT_JPEG), Some((16, 16)));
    assert_eq!(probe_bytes(TINY_JPEG), Some((17, 9, 1)));
    assert_eq!(probe_bytes(b"not an image"), None);
}

/// A raw container whose only preview is `jpeg`, turned by `orientation`.
fn container(jpeg: &[u8], orientation: u16) -> Vec<u8> {
    let mut d = Vec::new();
    d.extend_from_slice(b"II\x2a\x00");
    d.extend_from_slice(&8u32.to_le_bytes());
    d.extend_from_slice(&3u16.to_le_bytes());
    for (tag, kind, val) in [
        (TAG_ORIENTATION, 3u16, u32::from(orientation)),
        (TAG_JPEG_OFFSET, 4, 64),
        (TAG_JPEG_LENGTH, 4, jpeg.len() as u32),
    ] {
        d.extend_from_slice(&tag.to_le_bytes());
        d.extend_from_slice(&kind.to_le_bytes());
        d.extend_from_slice(&1u32.to_le_bytes());
        d.extend_from_slice(&val.to_le_bytes());
    }
    d.extend_from_slice(&0u32.to_le_bytes());
    d.resize(64, 0);
    d.extend_from_slice(jpeg);
    d
}

#[test]
fn raw_files_are_shown_from_their_preview() {
    let raw = container(FLAT_JPEG, 8);
    let loc = locate(&raw).unwrap();
    assert!(loc.from_raw);
    assert_eq!(loc.orientation, 8);
    assert_eq!(loc.jpeg, FLAT_JPEG);

    assert_eq!(probe_bytes(&raw), Some((16, 16, 8)));
    let img = decode(&raw, None, Decoder::Zune).unwrap();
    assert_eq!((img.width, img.height, img.orientation), (16, 16, 8));
}

#[test]
fn probing_agrees_with_decoding() {
    let raw = container(TINY_JPEG, 6);
    for data in [TINY_JPEG, FLAT_JPEG, GRAY_JPEG, &raw[..]] {
        for which in [Decoder::Zune, Decoder::JpegDecoder] {
            let img = decode(data, Some((4, 4)), which).unwrap();
            assert_eq!(
                probe_bytes(data),
                Some((img.native_width, img.native_height, img.orientation))
            );
        }
    }
}

#[test]
fn truncated_images_are_answered_one_way_or_the_other() {
    for n in 0..TINY_JPEG.len() {
        let cut = &TINY_JPEG[..n];
        for which in [Decoder::Zune, Decoder::JpegDecoder] {
            if let Ok(img) = decode(cut, None, which) {
                assert_eq!((img.width, img.height), (17, 9));
                assert_eq!(img.rgba.len(), 17 * 9 * 4);
                assert_eq!(probe_bytes(cut), Some((17, 9, 1)));
            }
        }
    }
}

#[test]
fn corrupt_images_are_errors_with_a_message() {
    // Cut off in the Huffman tables, behind the frame header.
    let cut = &TINY_JPEG[..115];
    for which in [Decoder::Zune, Decoder::JpegDecoder] {
        let Err(e) = decode(cut, None, which) else {
            panic!("a truncated header must not decode");
        };
        assert!(matches!(e, Error::Decode(_)));
        assert!(e.message().starts_with("decode failed: "), "{}", e.message());
    }
    let Err(e) = decode(b"", None, Decoder::Zune) else {
        panic!("nothing must not decode");
    };
    assert_eq!(e.message(), "no decodable image found");
}

#[test]
fn a_decoded_frame_becomes_an_image() {
    let img = zune_image(Ok(ZuneFrame { size: Some((1, 2)), icc: Some(vec![9]) }), vec![0; 8]).unwrap();
    assert_eq!((img.width, img.height, img.rgba.len()), (1, 2, 8));
    assert_eq!(img.icc, Some(vec![9]));
    assert!(zune_image(Ok(ZuneFrame { size: None, icc: None }), vec![]).is_err());
    let Err(Error::Decode(m)) = zune_image(Err("bad".to_string()), vec![]) else {
        panic!("an error stays one");
    };
    assert_eq!(m, "bad");
}

#[test]
fn pixel_formats_are_widened_or_refused() {
    let frame = |format, pixels| {
        Ok(Some(JpegFrame { width: 1, height: 1, format, lossless: false, pixels, icc: None }))
    };
    let img = jpeg_image(frame(PixelFormat::RGB24, vec![1, 2, 3]), 2, 2).unwrap();
    assert_eq!(img.rgba, vec![1, 2, 3, 0xFF]);
    assert_eq!((img.native_width, img.native_height), (2, 2));
    let img = jpeg_image(frame(PixelFormat::L8, vec![5]), 1, 1).unwrap();
    assert_eq!(img.rgba, vec![5, 5, 5, 0xFF]);
    for (format, said) in [
        (PixelFormat::CMYK32, "decode failed: unsupported pixel format CMYK32"),
        (PixelFormat::L16, "decode failed: unsupported pixel format L16"),
    ] {
        let Err(e) = jpeg_image(frame(format, vec![0; 4]), 1, 1) else {
            panic!("{format:?} must be refused");
        };
        assert_eq!(e.message(), said);
    }
    assert!(matches!(jpeg_image(Ok(None), 1, 1), Err(Error::NoImage)));
}

#[test]
fn the_two_decoders_can_be_called_alone() {
    let z = decode_zune(TINY_JPEG, Vec::new()).unwrap();
    let j = decode_jpeg_decoder(TINY_JPEG, None, 17, 9).unwrap();
    assert_eq!((z.width, z.height), (j.width, j.height));
    assert_eq!(z.rgba.len(), j.rgba.len());
    assert_eq!(z.color_space, None::<ColorSpace>);
}

#[test]
fn fitting_goes_by_what_is_allocated() {
    assert_eq!(fit_within(vec![1; 4], 16, 15), vec![0; 16], "no room: fresh zeros");
    let mut filled_up = vec![1; 4];
    filled_up.resize(16, 0);
    assert_eq!(fit_within(vec![1; 4], 16, 16), filled_up, "room: only the difference is zeroed");
    assert_eq!(fit_within(vec![1; 4], 4, 4), vec![1; 4]);
    assert_eq!(fit_within(vec![1; 64], 8, 64), vec![1; 8]);
    assert_eq!(fit(vec![1; 64], 8), vec![1; 8]);
}

#[test]
fn the_pool_goes_by_what_is_allocated() {
    let mut pool = BufferPool::new(2);
    pool.give_within(Vec::new(), 0);
    assert_eq!(pool.spare(), 0, "nothing to keep");
    pool.give_within(Vec::new(), 8);
    pool.give_within(vec![1, 2], 2);
    assert_eq!(pool.spare(), 2);
    pool.give_within(vec![3], 1);
    assert_eq!(pool.spare(), 2, "full");
    assert_eq!(pool.take(), vec![1, 2]);
}

#[test]
fn a_frame_without_all_its_pixels_makes_no_picture() {
    for (format, n) in [(PixelFormat::RGB24, 5), (PixelFormat::L8, 3), (PixelFormat::L8, 1)] {
        let frame = JpegFrame {
            width: 2,
            height: 1,
            format,
            lossless: true,
            pixels: vec![0; n],
            icc: None,
        };
        let Err(e) = jpeg_image(Ok(Some(frame)), 2, 1) else {
            panic!("{n} bytes are not two pixels");
        };
        assert_eq!(e.message(), "decode failed: wrong number of pixels");
    }
}

#[test]
fn any_scratch_buffer_gives_the_same_picture() {
    let fresh = decode(FLAT_JPEG, None, Decoder::Zune).unwrap();
    for scratch in [Vec::new(), vec![7u8; 5], vec![9u8; 16 * 16 * 4], vec![0xFFu8; 100_000]] {
        let again = decode_reusing(FLAT_JPEG, None, Decoder::Zune, scratch).unwrap();
        assert_eq!((again.width, again.height), (fresh.width, fresh.height));
        assert_eq!(again.rgba, fresh.rgba);
        assert_eq!((again.orientation, again.scale_denom), (fresh.orientation, fresh.scale_denom));
        assert_eq!((again.native_width, again.native_height), (16, 16));
        assert_eq!(again.icc, fresh.icc);
    }
}

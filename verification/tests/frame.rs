use cull::decode::{decode, decode_jpeg_decoder, decode_reusing, decode_zune, Decoder};
use cull::frame::{find_hurdle, is_countable, read_preamble, Hurdle, Preamble, MAX_SIDE};

const SOI: [u8; 2] = [0xFF, 0xD8];

/// A table of sixteens.
fn quantization() -> Vec<u8> {
    let mut d = vec![0xFF, 0xDB, 0x00, 0x43, 0x00];
    d.extend_from_slice(&[16; 64]);
    d
}

/// A table in which a zero bit is a block's end, or no difference.
fn huffman(class: u8) -> Vec<u8> {
    let mut d = vec![0xFF, 0xC4, 0x00, 0x14, class << 4, 1];
    d.extend_from_slice(&[0; 15]);
    d.push(0);
    d
}

fn frame(marker: u8, width: u16, height: u16, factors: &[u8]) -> Vec<u8> {
    let mut d = vec![0xFF, marker, 0x00, 8 + 3 * factors.len() as u8, 8];
    d.extend_from_slice(&height.to_be_bytes());
    d.extend_from_slice(&width.to_be_bytes());
    d.push(factors.len() as u8);
    for (k, f) in factors.iter().enumerate() {
        d.extend_from_slice(&[k as u8 + 1, *f, 0]);
    }
    d
}

/// The header of a scan of the given components, and as many zero bytes of pixels.
fn scan(components: &[u8], last: u8, pixels: usize) -> Vec<u8> {
    let mut d = vec![0xFF, 0xDA, 0x00, 6 + 2 * components.len() as u8, components.len() as u8];
    for c in components {
        d.extend_from_slice(&[*c, 0x00]);
    }
    d.extend_from_slice(&[0, last, 0]);
    d.resize(d.len() + pixels, 0);
    d
}

fn adobe(transform: u8) -> Vec<u8> {
    let mut d = vec![0xFF, 0xEE, 0x00, 0x0E];
    d.extend_from_slice(b"Adobe\0\x64\0\0\0\0");
    d.push(transform);
    d
}

fn file(parts: &[Vec<u8>]) -> Vec<u8> {
    let mut d = SOI.to_vec();
    for p in parts {
        d.extend_from_slice(p);
    }
    d.extend_from_slice(&[0xFF, 0xD9]);
    d
}

/// A file as far as its first scan.
fn headed(marker: u8, width: u16, factors: &[u8], components: &[u8]) -> Vec<u8> {
    sized(marker, width, 8, factors, components)
}

fn sized(marker: u8, width: u16, height: u16, factors: &[u8], components: &[u8]) -> Vec<u8> {
    file(&[
        quantization(),
        frame(marker, width, height, factors),
        huffman(0),
        huffman(1),
        scan(components, if marker == 0xC2 { 0 } else { 63 }, 600),
    ])
}

fn refusal(d: &[u8]) -> String {
    let Err(e) = decode_zune(d, Vec::new()) else { panic!("must be refused") };
    let Err(f) = decode(d, None, Decoder::Zune) else { panic!("must be refused") };
    assert_eq!(e.message(), f.message());
    e.message()
}

#[test]
fn too_few_components_for_the_transform_are_refused() {
    // The transform of four components, in a progressive frame of one or of two.
    let mut literal = SOI.to_vec();
    literal.extend_from_slice(&quantization());
    literal.extend_from_slice(&[0xFF, 0xEE, 0x00, 0x0E, 0x41, 0x64, 0x6F, 0x62, 0x65]);
    literal.extend_from_slice(&[0x00, 0x64, 0x00, 0x00, 0x00, 0x00, 0x02]);
    literal.extend_from_slice(&[0xFF, 0xC2, 0x00, 0x0E, 8, 0, 8, 0, 8, 2, 1, 0x11, 0, 2, 0x11, 0]);
    literal.extend_from_slice(&[0xFF, 0xDA, 0x00, 0x08, 0x01, 0x01, 0, 0, 0, 0, 0xFF, 0xD9]);

    let (two, one) = (frame(0xC2, 8, 8, &[0x11, 0x11]), frame(0xC2, 8, 8, &[0x11]));
    let pixels = scan(&[1], 0, 4);
    for d in [
        literal,
        file(&[quantization(), two.clone(), adobe(2), pixels.clone()]),
        file(&[quantization(), adobe(1), adobe(2), two.clone(), pixels.clone()]),
        file(&[quantization(), one.clone(), adobe(2), pixels.clone()]),
    ] {
        assert_eq!(find_hurdle(&d), Some(Hurdle::FewComponents));
        assert_eq!(refusal(&d), "decode failed: too few components");
        assert!(decode_reusing(&d, None, Decoder::Zune, vec![1; 256]).is_err());
    }

    // Another transform, a later one, a segment before a grey frame, more components, or a frame
    // that is not progressive: these are handed on, and answered.
    let three = frame(0xC2, 8, 8, &[0x11, 0x11, 0x11]);
    let plain = frame(0xC0, 8, 8, &[0x11, 0x11]);
    for d in [
        file(&[quantization(), adobe(1), two.clone(), pixels.clone()]),
        file(&[quantization(), adobe(2), adobe(0), two.clone(), pixels.clone()]),
        file(&[quantization(), adobe(2), one.clone(), pixels.clone()]),
        file(&[quantization(), adobe(2), three, pixels.clone()]),
        file(&[quantization(), adobe(2), plain, huffman(0), huffman(1), scan(&[1, 2], 63, 9)]),
        // The bytes of such a segment, but within a comment.
        file(&[
            quantization(),
            [vec![0xFF, 0xFE, 0x00, 0x12], adobe(2)].concat(),
            two,
            pixels,
        ]),
    ] {
        assert_eq!(find_hurdle(&d), None);
        if let Ok(img) = decode(&d, None, Decoder::Zune) {
            assert_eq!(img.rgba.len(), 8 * 8 * 4);
        }
    }
}

#[test]
fn sampling_that_leaves_no_room_is_refused() {
    for factors in [[0x11, 0x22, 0x11], [0x11, 0x11, 0x22], [0x12, 0x21, 0x11], [0x21, 0x42, 0x11]] {
        let d = headed(0xC2, 8, &factors, &[1, 2, 3]);
        assert_eq!(find_hurdle(&d), Some(Hurdle::Sampling), "{factors:x?}");
        assert_eq!(refusal(&d), "decode failed: unsupported sampling factors");
        // Coded in one scan, and not progressively, there is room.
        assert_eq!(find_hurdle(&headed(0xC0, 8, &factors, &[1, 2, 3])), None);
        assert_eq!(find_hurdle(&headed(0xC0, 8, &factors, &[1])), Some(Hurdle::Sampling));
    }
    // No row is doubled both ways.
    for factors in [[0x11, 0x21, 0x11], [0x21, 0x12, 0x11], [0x11, 0x12, 0x11], [0x41, 0x11, 0x21]] {
        assert_eq!(find_hurdle(&headed(0xC2, 40, &factors, &[1, 2, 3])), None, "{factors:x?}");
    }
    // In several scans the width of the rows matters.
    assert_eq!(find_hurdle(&headed(0xC1, 8, &[0x11, 0x21, 0x11], &[1])), None);
    assert_eq!(find_hurdle(&headed(0xC1, 9, &[0x11, 0x21, 0x11], &[1])), Some(Hurdle::Sampling));
    assert_eq!(find_hurdle(&headed(0xC1, 9, &[0x21, 0x21, 0x11], &[1])), None);
}

/// Every frame of one to four components, of a few widths, that has no hurdle is answered.
fn answered(marker: u8, all_in_one: bool) {
    let choices = [0x11, 0x21, 0x12, 0x22, 0x41, 0x13, 0x42];
    let n = choices.len();
    let mut handed_on = 0;
    for width in [1, 8, 17, 40] {
        for f in 0..n * n * n {
            let factors = [choices[f % n], choices[f / n % n], choices[f / n / n % n], 0x11];
            for (count, height) in [(1, 33), (2, 33), (3, 8), (3, 33), (4, 33)] {
                let of = &factors[..count];
                let listed: &[u8] = if all_in_one { &[1, 2, 3, 4][..count] } else { &[1] };
                let d = sized(marker, width, height, of, listed);
                if find_hurdle(&d).is_some() {
                    continue;
                }
                handed_on += 1;
                if let Ok(img) = decode_zune(&d, Vec::new()) {
                    assert_eq!(img.rgba.len(), usize::from(width) * usize::from(height) * 4);
                }
            }
        }
    }
    assert!(handed_on > 1000);
}

#[test]
fn progressive_frames_without_a_hurdle_are_answered() {
    answered(0xC2, true);
}

#[test]
fn frames_in_several_scans_without_a_hurdle_are_answered() {
    answered(0xC0, false);
}

#[test]
fn frames_in_one_scan_are_answered() {
    answered(0xC1, true);
}

#[test]
fn only_the_frame_that_is_read_counts() {
    let good = frame(0xC0, 8, 8, &[0x11, 0x11, 0x11]);
    let bad = frame(0xC2, 8, 8, &[0x11, 0x22, 0x11]);
    let tail = [huffman(0), huffman(1), scan(&[1, 2, 3], 63, 20)].concat();
    // Within a segment, after the scan, or after stuffing.
    let mut app = vec![0xFF, 0xE5, 0x00, 2 + bad.len() as u8];
    app.extend_from_slice(&bad);
    let d = file(&[app, quantization(), good.clone(), tail.clone(), bad.clone()]);
    assert_eq!(find_hurdle(&d), None);
    let img = decode(&d, None, Decoder::Zune).unwrap();
    assert_eq!((img.width, img.height), (8, 8));
    // But not after other bytes between the segments, nor after fill bytes.
    let d = file(&[quantization(), vec![1, 2, 0xFF, 0], vec![0xFF; 3], bad, tail]);
    assert_eq!(find_hurdle(&d), Some(Hurdle::Sampling));
    let Err(e) = decode_zune(&d, Vec::new()) else { panic!("must be refused") };
    assert_eq!(e.message(), "decode failed: unsupported sampling factors");
}

#[test]
fn the_preamble_is_what_stands_before_the_scan() {
    let q = quantization();
    let f = frame(0xC0, 8, 8, &[0x11]);
    let d = file(&[q.clone(), adobe(2), f.clone(), adobe(1), scan(&[1], 63, 0)]);
    let at = 2 + q.len() + 16;
    assert_eq!(
        read_preamble(&d),
        Some(Preamble { frame: Some(at), transform: Some(1), scan: at + f.len() + 16 })
    );
    // An APP0 segment of four bytes takes the next byte with it.
    let app0 = vec![0xFF, 0xE0, 0x00, 0x06, 1, 2, 3, 4];
    let d = file(&[app0.clone(), vec![0xFF, 0xEE], scan(&[1], 63, 0)]);
    assert_eq!(read_preamble(&d), Some(Preamble { frame: None, transform: None, scan: 12 }));
    assert_eq!(read_preamble(&[&SOI[..], &app0].concat()), None);
    // Cut off, or without a scan.
    assert_eq!(read_preamble(&file(&[q, f[..12].to_vec()])), None);
    assert_eq!(read_preamble(&file(&[])), None);
    assert_eq!(read_preamble(b""), None);
    assert_eq!(find_hurdle(b""), Some(Hurdle::NoFrame));
}

#[test]
fn frames_whose_blocks_cannot_be_counted_are_refused() {
    let grey = |width, height, factor| {
        file(&[
            quantization(),
            frame(0xC0, width, height, &[factor]),
            huffman(0),
            huffman(1),
            scan(&[1], 63, 4),
        ])
    };
    assert_eq!(MAX_SIDE, 65528);
    assert!(is_countable(&grey(16, 65528, 0x11)));
    assert!(is_countable(&grey(65535, 8, 0x11)));
    assert!(is_countable(&grey(65528, 8, 0x31)));
    for (w, h, f) in [(16, 65529, 0x11), (16, 65535, 0x11), (65529, 8, 0x31)] {
        let d = grey(w, h, f);
        assert!(!is_countable(&d));
        let Err(e) = decode_jpeg_decoder(&d, None, u32::from(w), u32::from(h)) else {
            panic!("must be refused");
        };
        assert_eq!(e.message(), "decode failed: too many blocks");
        assert!(decode(&d, Some((8, 8)), Decoder::JpegDecoder).is_err());
    }
    // In a single scan of all components blocks are counted otherwise.
    let tall = frame(0xC0, 16, 65535, &[0x11; 3]);
    let d = file(&[quantization(), tall.clone(), scan(&[1, 2, 3], 63, 4)]);
    assert!(is_countable(&d));
    let d = file(&[quantization(), tall.clone(), scan(&[1], 63, 4), scan(&[2, 3], 63, 4)]);
    assert!(!is_countable(&d));
    // And such a frame within a segment is none.
    let mut app = vec![0xFF, 0xE1, 0x00, 2 + tall.len() as u8];
    app.extend_from_slice(&tall);
    let d = file(&[app, quantization(), frame(0xC0, 8, 8, &[0x11]), scan(&[1], 63, 4)]);
    assert!(is_countable(&d));
    assert!(is_countable(b""));
}

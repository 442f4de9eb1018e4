use cull::icc::{classify, classify_profile, close, s15, tag, xyz, Verdict, Xyz};
use cull::tiff::ColorSpace;

/// Primaries of sRGB, adapted to the profile connection space.
const SRGB_R: [f64; 3] = [0.4360, 0.2225, 0.0139];
const SRGB_G: [f64; 3] = [0.3851, 0.7169, 0.0971];
const SRGB_B: [f64; 3] = [0.1431, 0.0606, 0.7139];

/// Build a minimal matrix/TRC RGB profile with the given primaries.
fn profile(r: [f64; 3], g: [f64; 3], b: [f64; 3]) -> Vec<u8> {
    let sigs: [&[u8; 4]; 3] = [b"rXYZ", b"gXYZ", b"bXYZ"];
    let vals = [r, g, b];
    let table_len = 132 + 3 * 12;
    let mut p = vec![0u8; table_len];
    p[16..20].copy_from_slice(b"RGB ");
    p[128..132].copy_from_slice(&3u32.to_be_bytes());

    for (i, (sig, v)) in sigs.iter().zip(vals.iter()).enumerate() {
        let off = p.len();
        let mut body = Vec::new();
        body.extend_from_slice(b"XYZ ");
        body.extend_from_slice(&0u32.to_be_bytes());
        for c in v.iter() {
            body.extend_from_slice(&((c * 65536.0).round() as i32).to_be_bytes());
        }
        let e = 132 + i * 12;
        p[e..e + 4].copy_from_slice(*sig);
        p[e + 4..e + 8].copy_from_slice(&(off as u32).to_be_bytes());
        p[e + 8..e + 12].copy_from_slice(&(body.len() as u32).to_be_bytes());
        p.extend_from_slice(&body);
    }
    p
}

#[test]
fn recognises_srgb_primaries() {
    let p = profile(SRGB_R, SRGB_G, SRGB_B);
    assert_eq!(classify_profile(&p), Verdict::Srgb);
    assert!(!classify_profile(&p).needs_warning());
}

#[test]
fn recognises_adobe_rgb() {
    // AdobeRGB red primary.
    let p = profile([0.6097, 0.3111, 0.0195], SRGB_G, SRGB_B);
    let v = classify_profile(&p);
    assert_eq!(v, Verdict::NotSrgb("Adobe RGB profile"));
    assert!(v.needs_warning(), "must warn so the user is not misled");
}

#[test]
fn recognises_prophoto() {
    let p = profile([0.7977, 0.2880, 0.0000], SRGB_G, SRGB_B);
    assert_eq!(classify_profile(&p), Verdict::NotSrgb("ProPhoto RGB profile"));
}

#[test]
fn tolerates_tiny_primary_differences() {
    // Real sRGB profiles vary in the last decimal; these must still pass.
    let p = profile([0.4361, 0.2226, 0.0138], [0.3850, 0.7168, 0.0972], SRGB_B);
    assert_eq!(classify_profile(&p), Verdict::Srgb);
}

#[test]
fn garbage_profiles_are_unparsable_not_panics() {
    for bytes in [vec![], vec![0u8; 10], vec![0xAB; 200], vec![0xFF; 500]] {
        let v = classify_profile(&bytes);
        assert!(
            matches!(v, Verdict::Unparsable | Verdict::NotSrgb(_)),
            "unexpected verdict {v:?}"
        );
    }
    // Every truncation of a valid profile must be handled.
    let good = profile(SRGB_R, SRGB_G, SRGB_B);
    for n in 0..good.len() {
        let _ = classify_profile(&good[..n]);
    }
}

#[test]
fn absurd_tag_count_is_rejected() {
    let mut p = vec![0u8; 200];
    p[16..20].copy_from_slice(b"RGB ");
    p[128..132].copy_from_slice(&u32::MAX.to_be_bytes());
    assert_eq!(classify_profile(&p), Verdict::Unparsable);
}

#[test]
fn non_rgb_profile_is_declined() {
    let mut p = profile(SRGB_R, SRGB_G, SRGB_B);
    p[16..20].copy_from_slice(b"GRAY");
    assert_eq!(classify_profile(&p), Verdict::Unparsable);
}

#[test]
fn no_profile_falls_back_to_exif() {
    // The camera-JPEG case: no profile, EXIF says sRGB.
    assert_eq!(
        classify(None, Some(ColorSpace::Srgb)),
        Verdict::AssumedSrgb
    );
    assert_eq!(classify(None, None), Verdict::AssumedSrgb);
    assert!(!classify(None, Some(ColorSpace::Srgb)).needs_warning());

    let v = classify(None, Some(ColorSpace::AdobeRgb));
    assert_eq!(v, Verdict::NotSrgb("EXIF says Adobe RGB"));
    assert!(v.needs_warning());
}

#[test]
fn embedded_profile_wins_over_exif() {
    // An export carrying an sRGB profile is sRGB regardless of any EXIF tag.
    let p = profile(SRGB_R, SRGB_G, SRGB_B);
    assert_eq!(
        classify(Some(&p), Some(ColorSpace::AdobeRgb)),
        Verdict::Srgb
    );
}

#[test]
fn descriptions_are_human_readable() {
    assert!(classify(None, None).describe().contains("sRGB"));
    assert!(Verdict::NotSrgb("Adobe RGB profile")
        .describe()
        .contains("colours will be off"));
}

#[test]
fn other_primaries_are_called_wide_gamut() {
    let p = profile([0.5151, 0.2412, -0.0011], SRGB_G, SRGB_B);
    assert_eq!(classify_profile(&p), Verdict::NotSrgb("wide-gamut profile"));
}

#[test]
fn tags_hold_fixed_point_numbers() {
    let p = profile(SRGB_R, SRGB_G, SRGB_B);
    assert_eq!(tag(&p, b"rXYZ").map(|t| t.len()), Some(20));
    assert!(tag(&p, b"wtpt").is_none());
    let red = xyz(&p, b"rXYZ").unwrap();
    assert_eq!((red.x, red.y, red.z), (28_574, 14_582, 911));
    assert_eq!(s15(&[0xFF, 0xFF, 0x00, 0x00], 0), Some(-65_536));
    assert_eq!(s15(&[0, 1, 0], 0), None);
}

#[test]
fn colours_are_close_within_a_hundredth() {
    let red = Xyz { x: 4360, y: 2225, z: 139 };
    // 0.4360 is 28573.7 65536ths, and a hundredth 655.36.
    assert!(close(Xyz { x: 29_229, y: 14_582, z: 911 }, red));
    assert!(!close(Xyz { x: 29_230, y: 14_582, z: 911 }, red));
}

#[test]
fn verdicts_are_the_same_when_they_say_the_same() {
    let a = Verdict::NotSrgb("Adobe RGB profile");
    assert!(a.same(Verdict::NotSrgb("Adobe RGB profile")));
    assert!(!a.same(Verdict::NotSrgb("wide-gamut profile")));
    assert!(!a.same(Verdict::Unparsable));
    assert!(Verdict::Srgb.same(Verdict::Srgb));
    assert_eq!(Verdict::Srgb.describe(), "sRGB");
    assert_eq!(Verdict::AssumedSrgb.describe(), "sRGB (assumed)");
    assert_eq!(Verdict::Unparsable.describe(), "unreadable colour profile - shown as sRGB");
}

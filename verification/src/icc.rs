//! ICC profile classification.
//!
//! No colour conversion happens anywhere in this program. Every file in the target
//! library is sRGB and the display is unprofiled, so the transform is the identity and
//! the renderer relies on hardware sRGB textures instead.
//!
//! What this module does is guard against *silent* wrongness: if a file ever shows up
//! carrying a wide-gamut profile, we want to say so rather than render it with the wrong
//! primaries and let the user cull on a false impression. Detection only.
//!
//! A profile stores its primaries as s15Fixed16 numbers, that is in units of 1/65536. They
//! are compared as integers, which loses nothing.
use vstd::prelude::*;
use crate::tiff::{ColorSpace, Endian};

verus! {

/// Verdict on an embedded profile.
#[derive(Clone, Copy, PartialEq, Eq, Debug)]
pub enum Verdict {
    /// No profile; EXIF said sRGB, or said nothing. Rendered as sRGB.
    AssumedSrgb,
    /// A profile that matches sRGB primaries within tolerance. Nothing to do.
    Srgb,
    /// EXIF `ColorSpace = 2`, or a profile whose primaries are not sRGB.
    /// Rendering is still sRGB, so colours will be wrong -- surface this.
    NotSrgb(&'static str),
    /// A profile that could not be parsed. Treated as sRGB, but worth reporting.
    Unparsable,
}

impl Verdict {
    /// True when the user should be told, because what they see may be wrong.
    pub fn needs_warning(self) -> (b: bool)
        ensures
            b == (self is NotSrgb || self is Unparsable),
    {
        match self {
            Verdict::NotSrgb(_) => true,
            Verdict::Unparsable => true,
            Verdict::AssumedSrgb => false,
            Verdict::Srgb => false,
        }
    }

    /// The two verdicts say the same.
    pub open spec fn spec_same(self, other: Verdict) -> bool {
        match (self, other) {
            (Verdict::AssumedSrgb, Verdict::AssumedSrgb) => true,
            (Verdict::Srgb, Verdict::Srgb) => true,
            (Verdict::NotSrgb(a), Verdict::NotSrgb(b)) => a@ == b@,
            (Verdict::Unparsable, Verdict::Unparsable) => true,
            _ => false,
        }
    }

    /// True when the two verdicts say the same.
    pub fn same(self, other: Verdict) -> (b: bool)
        ensures
            b == self.spec_same(other),
    {
        match (self, other) {
            (Verdict::AssumedSrgb, Verdict::AssumedSrgb) => true,
            (Verdict::Srgb, Verdict::Srgb) => true,
            (Verdict::NotSrgb(a), Verdict::NotSrgb(b)) => {
                let a = String::from_str(a);
                let b = String::from_str(b);
                a == b
            },
            (Verdict::Unparsable, Verdict::Unparsable) => true,
            _ => false,
        }
    }

    pub open spec fn spec_describe(self) -> Seq<char> {
        match self {
            Verdict::AssumedSrgb => "sRGB (assumed)"@,
            Verdict::Srgb => "sRGB"@,
            Verdict::NotSrgb(what) => what@ + " - shown as sRGB, colours will be off"@,
            Verdict::Unparsable => "unreadable colour profile - shown as sRGB"@,
        }
    }

    /// The verdict in words.
    pub fn describe(self) -> (s: String)
        ensures
            s@ == self.spec_describe(),
    {
        match self {
            Verdict::AssumedSrgb => String::from_str("sRGB (assumed)"),
            Verdict::Srgb => String::from_str("sRGB"),
            Verdict::NotSrgb(what) => {
                let mut s = String::from_str(what);
                s.append(" - shown as sRGB, colours will be off");
                s
            },
            Verdict::Unparsable => String::from_str("unreadable colour profile - shown as sRGB"),
        }
    }
}

/// A colorant as D50-adapted XYZ.
#[derive(Clone, Copy)]
pub struct Xyz {
    pub x: i32,
    pub y: i32,
    pub z: i32,
}

/// The red primary of sRGB / Rec.709, in ten-thousandths.
pub open spec fn srgb_red() -> Xyz {
    Xyz { x: 4360, y: 2225, z: 139 }
}

/// The green primary of sRGB / Rec.709, in ten-thousandths.
pub open spec fn srgb_green() -> Xyz {
    Xyz { x: 3851, y: 7169, z: 971 }
}

/// The blue primary of sRGB / Rec.709, in ten-thousandths.
pub open spec fn srgb_blue() -> Xyz {
    Xyz { x: 1431, y: 606, z: 7139 }
}

/// Ten-thousandths. Generous enough to accept the various sRGB profiles in circulation
/// (which differ in the last decimal place), tight enough to reject AdobeRGB, whose red X
/// is 0.6097.
pub const TOLERANCE: i32 = 100;

/// The fixed-point number `v / 65536` lies within `t` ten-thousandths of `c`, exclusively.
pub open spec fn spec_near(v: int, c: int, t: int) -> bool {
    -t * 65536 < v * 10000 - c * 65536 < t * 65536
}

fn near(v: i32, c: i32, t: i32) -> (b: bool)
    requires
        0 <= c <= 10000,
        0 <= t <= 10000,
    ensures
        b == spec_near(v as int, c as int, t as int),
{
    let d: i64 = v as i64 * 10000 - c as i64 * 65536;
    -(t as i64) * 65536 < d && d < t as i64 * 65536
}

/// Each component of `a`, in 65536ths, is within tolerance of that of `b`, in ten-thousandths.
pub open spec fn spec_close(a: Xyz, b: Xyz) -> bool {
    &&& spec_near(a.x as int, b.x as int, TOLERANCE as int)
    &&& spec_near(a.y as int, b.y as int, TOLERANCE as int)
    &&& spec_near(a.z as int, b.z as int, TOLERANCE as int)
}

/// `a`, in 65536ths, is the colour `b`, in ten-thousandths, within tolerance.
pub fn close(a: Xyz, b: Xyz) -> (r: bool)
    requires
        0 <= b.x <= 10000,
        0 <= b.y <= 10000,
        0 <= b.z <= 10000,
    ensures
        r == spec_close(a, b),
{
    near(a.x, b.x, TOLERANCE) && near(a.y, b.y, TOLERANCE) && near(a.z, b.z, TOLERANCE)
}

/// The big-endian s15Fixed16 at `off`, in 65536ths.
pub open spec fn s15_at(p: Seq<u8>, off: int) -> Option<i32> {
    match crate::tiff::u32_at(Endian::Big, p, off) {
        Some(v) => Some(
            if v < 0x8000_0000 {
                v as i32
            } else {
                (v - 0x1_0000_0000) as i32
            },
        ),
        None => None,
    }
}

/// Read a big-endian s15Fixed16 at `off`.
pub fn s15(p: &[u8], off: usize) -> (r: Option<i32>)
    ensures
        r == s15_at(p@, off as int),
{
    match Endian::Big.u32_from(p, off) {
        Some(v) => Some(
            if v < 0x8000_0000 {
                v as i32
            } else {
                (v as i64 - 0x1_0000_0000) as i32
            },
        ),
        None => None,
    }
}

/// The four bytes of `sig` stand at `at`.
pub open spec fn sig_at(p: Seq<u8>, at: int, sig: Seq<u8>) -> bool {
    p.subrange(at, at + 4) == sig
}

/// The range of the data of the first tag, from entry `i` of the table on, whose signature is
/// `sig`. There is none when the table or the data is cut off.
pub open spec fn tag_range(p: Seq<u8>, sig: Seq<u8>, i: nat, count: nat) -> Option<(int, int)>
    decreases count - i,
{
    let e: int = 132 + 12 * i as int;
    if i >= count || e + 12 > p.len() {
        None
    } else if sig_at(p, e, sig) {
        match (
            crate::tiff::u32_at(Endian::Big, p, e + 4),
            crate::tiff::u32_at(Endian::Big, p, e + 8),
        ) {
            (Some(off), Some(len)) => if off + len <= p.len() {
                Some((off as int, off + len))
            } else {
                None
            },
            _ => None,
        }
    } else {
        tag_range(p, sig, i + 1, count)
    }
}

/// More tags than any profile plausibly has.
pub const MAX_TAGS: u32 = 1024;

/// The data of the tag `sig`.
pub open spec fn spec_tag(p: Seq<u8>, sig: Seq<u8>) -> Option<Seq<u8>> {
    match crate::tiff::u32_at(Endian::Big, p, 128) {
        Some(count) => if count > MAX_TAGS {
            None
        } else {
            match tag_range(p, sig, 0, count as nat) {
                Some((a, b)) => Some(p.subrange(a, b)),
                None => None,
            }
        },
        None => None,
    }
}

/// Locate a tag's data in an ICC profile's tag table.
pub fn tag<'a>(profile: &'a [u8], sig: &[u8; 4]) -> (r: Option<&'a [u8]>)
    ensures
        match r {
            Some(body) => spec_tag(profile@, sig@) == Some(body@),
            None => spec_tag(profile@, sig@) is None,
        },
{
    let count: u32 = match Endian::Big.u32_from(profile, 128) {
        Some(c) => c,
        None => {
            return None;
        },
    };
    // A profile cannot plausibly have thousands of tags; refuse absurd headers.
    if count > MAX_TAGS {
        return None;
    }
    let total: usize = profile.len();
    let mut i: u32 = 0;
    let mut e: usize = 132;
    while i < count
        invariant
            i <= count <= MAX_TAGS,
            e == 132 + 12 * i,
            e <= total,
            total == profile@.len(),
            crate::tiff::u32_at(Endian::Big, profile@, 128) == Some(count),
            tag_range(profile@, sig@, 0, count as nat) == tag_range(
                profile@,
                sig@,
                i as nat,
                count as nat,
            ),
        decreases count - i,
    {
        if total - e < 12 {
            return None;
        }
        let found = profile[e] == sig[0] && profile[e + 1] == sig[1] && profile[e + 2] == sig[2]
            && profile[e + 3] == sig[3];
        proof {
            let s = profile@.subrange(e as int, e + 4);
            if found {
                assert(s == sig@);
            } else {
                assert(s[0] != sig@[0] || s[1] != sig@[1] || s[2] != sig@[2] || s[3] != sig@[3]);
            }
        }
        if found {
            return match (
                Endian::Big.u32_from(profile, e + 4),
                Endian::Big.u32_from(profile, e + 8),
            ) {
                (Some(off), Some(len)) => {
                    let (off, len): (usize, usize) = (off as usize, len as usize);
                    if off <= total && len <= total - off {
                        Some(vstd::slice::slice_subrange(profile, off, off + len))
                    } else {
                        None
                    }
                },
                _ => None,
            };
        }
        i = i + 1;
        e = e + 12;
    }
    None
}

/// The colorant triple in the tag `sig`, when it is of the `XYZ ` type and complete.
pub open spec fn spec_xyz(p: Seq<u8>, sig: Seq<u8>) -> Option<Xyz> {
    match spec_tag(p, sig) {
        Some(body) => if body.len() >= 4 && sig_at(body, 0, seq![0x58, 0x59, 0x5A, 0x20]) {
            match (s15_at(body, 8), s15_at(body, 12), s15_at(body, 16)) {
                (Some(x), Some(y), Some(z)) => Some(Xyz { x, y, z }),
                _ => None,
            }
        } else {
            None
        },
        None => None,
    }
}

/// Read an `XYZ ` type tag as a colorant triple.
pub fn xyz(profile: &[u8], sig: &[u8; 4]) -> (r: Option<Xyz>)
    ensures
        r == spec_xyz(profile@, sig@),
{
    let body = match tag(profile, sig) {
        Some(b) => b,
        None => {
            return None;
        },
    };
    if body.len() < 4 {
        return None;
    }
    let typed = body[0] == 0x58 && body[1] == 0x59 && body[2] == 0x5A && body[3] == 0x20;
    proof {
        let s = body@.subrange(0, 4);
        let t: Seq<u8> = seq![0x58, 0x59, 0x5A, 0x20];
        if typed {
            assert(s == t);
        } else {
            assert(s[0] != t[0] || s[1] != t[1] || s[2] != t[2] || s[3] != t[3]);
        }
    }
    if !typed {
        return None;
    }
    match (s15(body, 8), s15(body, 12), s15(body, 16)) {
        (Some(x), Some(y), Some(z)) => Some(Xyz { x, y, z }),
        _ => None,
    }
}

/// The verdict on three primaries, in 65536ths.
pub open spec fn verdict_on(r: Xyz, g: Xyz, b: Xyz) -> Verdict {
    if spec_close(r, srgb_red()) && spec_close(g, srgb_green()) && spec_close(b, srgb_blue()) {
        Verdict::Srgb
    } else if spec_near(r.x as int, 6097, 200) {
        Verdict::NotSrgb("Adobe RGB profile")
    } else if spec_near(r.x as int, 7977, 200) {
        Verdict::NotSrgb("ProPhoto RGB profile")
    } else {
        Verdict::NotSrgb("wide-gamut profile")
    }
}

/// The verdict on a profile: only matrix/TRC RGB profiles, which name their three primaries,
/// are judged.
pub open spec fn spec_classify_profile(p: Seq<u8>) -> Verdict {
    if p.len() < 132 || !sig_at(p, 16, seq![0x52, 0x47, 0x42, 0x20]) {
        Verdict::Unparsable
    } else {
        match (
            spec_xyz(p, seq![0x72, 0x58, 0x59, 0x5A]),
            spec_xyz(p, seq![0x67, 0x58, 0x59, 0x5A]),
            spec_xyz(p, seq![0x62, 0x58, 0x59, 0x5A]),
        ) {
            (Some(r), Some(g), Some(b)) => verdict_on(r, g, b),
            _ => Verdict::Unparsable,
        }
    }
}

/// Classify an embedded ICC profile.
pub fn classify_profile(profile: &[u8]) -> (v: Verdict)
    ensures
        v == spec_classify_profile(profile@),
{
    // Header is 128 bytes plus a 4-byte tag count.
    if profile.len() < 132 {
        return Verdict::Unparsable;
    }
    // Only matrix/TRC RGB profiles are recognised; anything else is not judged.
    let rgb = profile[16] == 0x52 && profile[17] == 0x47 && profile[18] == 0x42 && profile[19]
        == 0x20;
    proof {
        let s = profile@.subrange(16, 20);
        let t: Seq<u8> = seq![0x52, 0x47, 0x42, 0x20];
        if rgb {
            assert(s == t);
        } else {
            assert(s[0] != t[0] || s[1] != t[1] || s[2] != t[2] || s[3] != t[3]);
        }
    }
    if !rgb {
        return Verdict::Unparsable;
    }
    // The signatures rXYZ, gXYZ and bXYZ.
    let (red, green, blue): ([u8; 4], [u8; 4], [u8; 4]) = (
        [0x72, 0x58, 0x59, 0x5A],
        [0x67, 0x58, 0x59, 0x5A],
        [0x62, 0x58, 0x59, 0x5A],
    );
    assert(red@ == seq![0x72u8, 0x58, 0x59, 0x5A]);
    assert(green@ == seq![0x67u8, 0x58, 0x59, 0x5A]);
    assert(blue@ == seq![0x62u8, 0x58, 0x59, 0x5A]);
    match (xyz(profile, &red), xyz(profile, &green), xyz(profile, &blue)) {
        (Some(r), Some(g), Some(b)) => {
            if close(r, Xyz { x: 4360, y: 2225, z: 139 }) && close(
                g,
                Xyz { x: 3851, y: 7169, z: 971 },
            ) && close(b, Xyz { x: 1431, y: 606, z: 7139 }) {
                Verdict::Srgb
            } else if near(r.x, 6097, 200) {
                Verdict::NotSrgb("Adobe RGB profile")
            } else if near(r.x, 7977, 200) {
                Verdict::NotSrgb("ProPhoto RGB profile")
            } else {
                Verdict::NotSrgb("wide-gamut profile")
            }
        },
        // A LUT-based profile has no colorant tags. It cannot cheaply be judged.
        _ => Verdict::Unparsable,
    }
}

/// The verdict on an image: a profile decides; without one, EXIF does.
pub open spec fn spec_classify(icc: Option<Seq<u8>>, exif: Option<ColorSpace>) -> Verdict {
    match icc {
        Some(p) => spec_classify_profile(p),
        None => if exif == Some(ColorSpace::AdobeRgb) {
            Verdict::NotSrgb("EXIF says Adobe RGB")
        } else {
            Verdict::AssumedSrgb
        },
    }
}

/// Classify an image from its embedded profile and EXIF `ColorSpace` tag.
pub fn classify(icc: Option<&[u8]>, exif: Option<ColorSpace>) -> (v: Verdict)
    ensures
        v == spec_classify(
            match icc {
                Some(p) => Some(p@),
                None => None,
            },
            exif,
        ),
{
    match icc {
        Some(p) => classify_profile(p),
        // No profile: trust EXIF, which is what other viewers do.
        None => match exif {
            Some(ColorSpace::AdobeRgb) => Verdict::NotSrgb("EXIF says Adobe RGB"),
            _ => Verdict::AssumedSrgb,
        },
    }
}

/// A profile is called sRGB only if all three of its primaries are within tolerance of sRGB's,
/// whatever EXIF says: a wide-gamut file never passes in silence.
pub proof fn law_srgb_verdict_means_srgb_primaries(p: Seq<u8>, exif: Option<ColorSpace>)
    ensures
        spec_classify(Some(p), exif) == Verdict::Srgb <==> {
            &&& p.len() >= 132 && sig_at(p, 16, seq![0x52, 0x47, 0x42, 0x20])
            &&& spec_xyz(p, seq![0x72, 0x58, 0x59, 0x5A]) matches Some(r) && spec_close(r, srgb_red())
            &&& spec_xyz(p, seq![0x67, 0x58, 0x59, 0x5A]) matches Some(g) && spec_close(g, srgb_green())
            &&& spec_xyz(p, seq![0x62, 0x58, 0x59, 0x5A]) matches Some(b) && spec_close(b, srgb_blue())
        },
        spec_classify(Some(p), exif) != Verdict::AssumedSrgb,
{
}

/// An entry of a profile's table of tags: its signature, and where its data lies.
pub struct TagEntry {
    pub sig: Seq<u8>,
    pub at: u32,
    pub len: u32,
}

/// The profile has this table of tags: their number stands at 128, and twelve bytes for each
/// follow, all numbers in big-endian order.
pub open spec fn has_tags(p: Seq<u8>, tags: Seq<TagEntry>) -> bool {
    &&& tags.len() <= 1024
    &&& 132 + 12 * tags.len() <= p.len()
    &&& crate::written::long_at(Endian::Big, p, 128, tags.len() as u32)
    &&& forall|i: int|
        0 <= i < tags.len() ==> {
            let t = #[trigger] tags[i];
            let e = 132 + 12 * i;
            &&& t.sig.len() == 4
            &&& p[e] == t.sig[0] && p[e + 1] == t.sig[1] && p[e + 2] == t.sig[2] && p[e + 3]
                == t.sig[3]
            &&& crate::written::long_at(Endian::Big, p, e + 4, t.at)
            &&& crate::written::long_at(Endian::Big, p, e + 8, t.len)
            &&& t.at + t.len <= p.len()
        }
}

/// The signed number `v` stands at `at`, in two's complement.
pub open spec fn signed_at(p: Seq<u8>, at: int, v: i32) -> bool {
    crate::written::long_at(
        Endian::Big,
        p,
        at,
        (if v >= 0 {
            v as int
        } else {
            v + 0x1_0000_0000
        }) as u32,
    )
}

/// The tag's data is of the `XYZ ` type and holds the colour `c`.
pub open spec fn holds_colour(p: Seq<u8>, t: TagEntry, c: Xyz) -> bool {
    let a = t.at as int;
    &&& t.len >= 20
    &&& p[a] == 0x58 && p[a + 1] == 0x59 && p[a + 2] == 0x5A && p[a + 3] == 0x20
    &&& signed_at(p, a + 8, c.x)
    &&& signed_at(p, a + 12, c.y)
    &&& signed_at(p, a + 16, c.z)
}

proof fn lemma_tag_range(p: Seq<u8>, tags: Seq<TagEntry>, sig: Seq<u8>, i: nat, k: int)
    requires
        has_tags(p, tags),
        sig.len() == 4,
        i <= k <= tags.len(),
        k < tags.len() ==> tags[k].sig == sig,
        forall|j: int| 0 <= j < k ==> (#[trigger] tags[j]).sig != sig,
    ensures
        k < tags.len() ==> tag_range(p, sig, i, tags.len()) == Some(
            (tags[k].at as int, tags[k].at + tags[k].len),
        ),
        k == tags.len() ==> tag_range(p, sig, i, tags.len()) is None,
    decreases k - i,
{
    if i < tags.len() {
        let t = tags[i as int];
        let e: int = 132 + 12 * i as int;
        let found = p.subrange(e, e + 4);
        if i < k {
            assert(found != sig) by {
                if found == sig {
                    assert(t.sig =~= sig) by {
                        assert(found[0] == sig[0] && found[1] == sig[1] && found[2] == sig[2]
                            && found[3] == sig[3]);
                    }
                }
            }
            lemma_tag_range(p, tags, sig, i + 1, k);
        } else {
            assert(found =~= sig);
            crate::written::lemma_long(Endian::Big, p, e + 4, t.at);
            crate::written::lemma_long(Endian::Big, p, e + 8, t.len);
        }
    }
}

proof fn lemma_signed(p: Seq<u8>, body: Seq<u8>, a: int, n: int, off: int, v: i32)
    requires
        0 <= a,
        a + n <= p.len(),
        body == p.subrange(a, a + n),
        0 <= off,
        off + 4 <= n,
        signed_at(p, a + off, v),
    ensures
        s15_at(body, off) == Some(v),
{
    let u = (if v >= 0 {
        v as int
    } else {
        v + 0x1_0000_0000
    }) as u32;
    assert(body[off] == p[a + off] && body[off + 1] == p[a + off + 1]);
    assert(body[off + 2] == p[a + off + 2] && body[off + 3] == p[a + off + 3]);
    assert(crate::written::long_at(Endian::Big, body, off, u));
    crate::written::lemma_long(Endian::Big, body, off, u);
}

/// A colour is read from the first tag of its signature, wherever the table points.
pub proof fn law_colours_are_read_from_their_tags(
    p: Seq<u8>,
    tags: Seq<TagEntry>,
    sig: Seq<u8>,
    k: int,
    c: Xyz,
)
    requires
        has_tags(p, tags),
        sig.len() == 4,
        0 <= k <= tags.len(),
        forall|j: int| 0 <= j < k ==> (#[trigger] tags[j]).sig != sig,
        k < tags.len() ==> tags[k].sig == sig && holds_colour(p, tags[k], c),
    ensures
        k < tags.len() ==> spec_xyz(p, sig) == Some(c),
        k == tags.len() ==> spec_xyz(p, sig) is None,
{
    crate::written::lemma_long(Endian::Big, p, 128, tags.len() as u32);
    lemma_tag_range(p, tags, sig, 0, k);
    if k < tags.len() {
        let t = tags[k];
        let a = t.at as int;
        let body = p.subrange(a, a + t.len);
        assert(body.subrange(0, 4) =~= seq![0x58u8, 0x59, 0x5A, 0x20]);
        lemma_signed(p, body, a, t.len as int, 8, c.x);
        lemma_signed(p, body, a, t.len as int, 12, c.y);
        lemma_signed(p, body, a, t.len as int, 16, c.z);
    }
}

/// `v`, in 65536ths, is less than `t` ten-thousandths away from `c` ten-thousandths.
pub open spec fn is_about(v: i32, c: int, t: int) -> bool {
    c * 65536 - t * 65536 < v * 10000 < c * 65536 + t * 65536
}

/// The primaries are those of sRGB, each coordinate to a hundredth.
pub open spec fn are_srgb(r: Xyz, g: Xyz, b: Xyz) -> bool {
    &&& is_about(r.x, 4360, 100) && is_about(r.y, 2225, 100) && is_about(r.z, 139, 100)
    &&& is_about(g.x, 3851, 100) && is_about(g.y, 7169, 100) && is_about(g.z, 971, 100)
    &&& is_about(b.x, 1431, 100) && is_about(b.y, 606, 100) && is_about(b.z, 7139, 100)
}

/// A profile is judged by the primaries in its red, green and blue tags, whatever EXIF says: it is
/// sRGB if they are, and named by its red primary if they are not. One that is not an RGB profile,
/// or lacks one of the tags, cannot be judged.
pub proof fn law_profile_is_judged_by_its_primaries(
    p: Seq<u8>,
    exif: Option<ColorSpace>,
    tags: Seq<TagEntry>,
    i: int,
    r: Xyz,
    j: int,
    g: Xyz,
    k: int,
    b: Xyz,
)
    requires
        has_tags(p, tags),
        0 <= i <= tags.len(),
        0 <= j <= tags.len(),
        0 <= k <= tags.len(),
        forall|n: int| 0 <= n < i ==> (#[trigger] tags[n]).sig != seq![0x72u8, 0x58, 0x59, 0x5A],
        forall|n: int| 0 <= n < j ==> (#[trigger] tags[n]).sig != seq![0x67u8, 0x58, 0x59, 0x5A],
        forall|n: int| 0 <= n < k ==> (#[trigger] tags[n]).sig != seq![0x62u8, 0x58, 0x59, 0x5A],
        i < tags.len() ==> tags[i].sig == seq![0x72u8, 0x58, 0x59, 0x5A] && holds_colour(
            p,
            tags[i],
            r,
        ),
        j < tags.len() ==> tags[j].sig == seq![0x67u8, 0x58, 0x59, 0x5A] && holds_colour(
            p,
            tags[j],
            g,
        ),
        k < tags.len() ==> tags[k].sig == seq![0x62u8, 0x58, 0x59, 0x5A] && holds_colour(
            p,
            tags[k],
            b,
        ),
    ensures
        ({
            let v = spec_classify(Some(p), exif);
            let rgb = p[16] == 0x52 && p[17] == 0x47 && p[18] == 0x42 && p[19] == 0x20;
            let whole = i < tags.len() && j < tags.len() && k < tags.len();
            &&& !rgb || !whole ==> v is Unparsable
            &&& rgb && whole && are_srgb(r, g, b) ==> v is Srgb
            &&& rgb && whole && !are_srgb(r, g, b) ==> v is NotSrgb
            &&& rgb && whole && !are_srgb(r, g, b) && is_about(r.x, 6097, 200) ==> v->NotSrgb_0@
                == "Adobe RGB profile"@
            &&& rgb && whole && !are_srgb(r, g, b) && is_about(r.x, 7977, 200) ==> v->NotSrgb_0@
                == "ProPhoto RGB profile"@
            &&& rgb && whole && !are_srgb(r, g, b) && !is_about(r.x, 6097, 200) && !is_about(
                r.x,
                7977,
                200,
            ) ==> v->NotSrgb_0@ == "wide-gamut profile"@
        }),
{
    let (red, green, blue) = (
        seq![0x72u8, 0x58, 0x59, 0x5A],
        seq![0x67u8, 0x58, 0x59, 0x5A],
        seq![0x62u8, 0x58, 0x59, 0x5A],
    );
    law_colours_are_read_from_their_tags(p, tags, red, i, r);
    law_colours_are_read_from_their_tags(p, tags, green, j, g);
    law_colours_are_read_from_their_tags(p, tags, blue, k, b);
    let s = p.subrange(16, 20);
    let t = seq![0x52u8, 0x47, 0x42, 0x20];
    if p[16] == 0x52 && p[17] == 0x47 && p[18] == 0x42 && p[19] == 0x20 {
        assert(s =~= t);
    } else {
        assert(s[0] != t[0] || s[1] != t[1] || s[2] != t[2] || s[3] != t[3]);
    }
}

/// Without a profile EXIF decides: an image that it calls Adobe RGB is not sRGB, and any other is
/// taken to be. Too short a profile cannot be judged.
pub proof fn law_exif_decides_without_a_profile(exif: Option<ColorSpace>, p: Seq<u8>)
    ensures
        exif == Some(ColorSpace::AdobeRgb) ==> spec_classify(None, exif) is NotSrgb && spec_classify(
            None,
            exif,
        )->NotSrgb_0@ == "EXIF says Adobe RGB"@,
        exif != Some(ColorSpace::AdobeRgb) ==> spec_classify(None, exif) is AssumedSrgb,
        p.len() < 132 ==> spec_classify(Some(p), exif) is Unparsable,
{
}

/// The verdicts are put into words: those that need no warning name sRGB, and the others say what
/// is wrong.
pub proof fn law_verdicts_are_put_into_words(what: &'static str)
    ensures
        Verdict::AssumedSrgb.spec_describe() == "sRGB (assumed)"@,
        Verdict::Srgb.spec_describe() == "sRGB"@,
        Verdict::NotSrgb(what).spec_describe() == what@ + " - shown as sRGB, colours will be off"@,
        Verdict::Unparsable.spec_describe() == "unreadable colour profile - shown as sRGB"@,
        Verdict::Srgb.spec_same(Verdict::Srgb),
        !Verdict::Srgb.spec_same(Verdict::AssumedSrgb),
        !Verdict::Srgb.spec_same(Verdict::NotSrgb(what)),
        !Verdict::NotSrgb(what).spec_same(Verdict::Unparsable),
        Verdict::NotSrgb(what).spec_same(Verdict::NotSrgb(what)),
{
}

} // verus!

//! The segments in front of a JPEG's first scan, walked as the decoders walk them, and the frames
//! found there that a decoder cannot cope with.
use vstd::prelude::*;
use crate::decode;
use crate::tiff;

verus! {

/// The first marker from position `i` on: a byte of ones, followed by one that neither is a fill
/// byte nor says that the ones were data.
pub open spec fn marker_from(data: Seq<u8>, i: int) -> Option<int>
    decreases data.len() - i,
{
    if i < 0 || i + 2 > data.len() {
        None
    } else if data[i] == 0xFF && data[i + 1] != 0 && data[i + 1] != 0xFF {
        Some(i)
    } else {
        marker_from(data, i + 1)
    }
}

/// A marker is found where one can stand.
pub proof fn lemma_marker_from(data: Seq<u8>, i: int)
    ensures
        marker_from(data, i) matches Some(p) ==> 0 <= i <= p && p + 2 <= data.len() && data[p]
            == 0xFF,
    decreases data.len() - i,
{
    if 0 <= i && i + 2 <= data.len() {
        lemma_marker_from(data, i + 1);
    }
}

/// The first marker from position `start` on.
fn find_marker(data: &[u8], start: usize) -> (r: Option<usize>)
    ensures
        r matches Some(p) ==> marker_from(data@, start as int) == Some(p as int),
        r is None ==> marker_from(data@, start as int) is None,
{
    let total: usize = data.len();
    let mut i: usize = start;
    while i < total && total - i >= 2
        invariant
            total == data@.len(),
            marker_from(data@, start as int) == marker_from(data@, i as int),
        decreases total - i,
    {
        if data[i] == 0xFF && data[i + 1] != 0 && data[i + 1] != 0xFF {
            return Some(i);
        }
        i = i + 1;
    }
    None
}

/// Where the segment of the marker at `p` ends, if it is all there.
pub open spec fn segment_end(data: Seq<u8>, p: int) -> Option<int> {
    match tiff::u16_at(tiff::Endian::Big, data, p + 2) {
        Some(len) => if len >= 2 && p + 2 + len <= data.len() {
            Some(p + 2 + len)
        } else {
            None
        },
        None => None,
    }
}

fn find_segment_end(data: &[u8], p: usize) -> (r: Option<usize>)
    requires
        p + 2 <= data@.len(),
    ensures
        r matches Some(e) ==> segment_end(data@, p as int) == Some(e as int) && p + 4 <= e
            <= data@.len(),
        r is None ==> segment_end(data@, p as int) is None,
{
    assert(data.len() == data@.len());
    match tiff::Endian::Big.u16_from(data, p + 2) {
        Some(len) => if len >= 2 && data.len() - p - 2 >= len as usize {
            Some(p + 2 + len as usize)
        } else {
            None
        },
        None => None,
    }
}

/// A frame header that is all there stands at position `i`: any SOF marker, and a segment as
/// long as its number of components asks for.
pub open spec fn frame_at(data: Seq<u8>, i: int) -> bool {
    &&& 0 <= i
    &&& i + 10 <= data.len()
    &&& data[i] == 0xFF
    &&& decode::is_sof(data[i + 1])
    &&& data[i + 9] >= 1
    &&& i + 10 + 3 * data[i + 9] <= data.len()
    &&& tiff::u16_at(tiff::Endian::Big, data, i + 2) == Some((8 + 3 * data[i + 9]) as u16)
}

fn has_frame_at(data: &[u8], i: usize) -> (b: bool)
    requires
        i < data@.len(),
    ensures
        b == frame_at(data@, i as int),
{
    let total: usize = data.len();
    if data[i] != 0xFF || total - i < 10 {
        return false;
    }
    let n: usize = data[i + 9] as usize;
    if !is_frame_marker(data[i + 1]) || n == 0 || total - i - 10 < 3 * n {
        return false;
    }
    match tiff::Endian::Big.u16_from(data, i + 2) {
        Some(len) => len as usize == 8 + 3 * n,
        None => false,
    }
}

fn is_frame_marker(marker: u8) -> (b: bool)
    ensures
        b == decode::is_sof(marker),
{
    (0xC0 <= marker && marker <= 0xC3) || (0xC5 <= marker && marker <= 0xC7) || (0xC9 <= marker
        && marker <= 0xCB) || (0xCD <= marker && marker <= 0xCF)
}

/// How finely component `k` of the frame at `f` is sampled across.
pub open spec fn across(data: Seq<u8>, f: int, k: int) -> u8 {
    data[f + 11 + 3 * k] / 16
}

/// How finely component `k` of the frame at `f` is sampled down.
pub open spec fn down(data: Seq<u8>, f: int, k: int) -> u8 {
    data[f + 11 + 3 * k] % 16
}

/// The finest sampling across of the first `n` components of the frame at `f`.
pub open spec fn finest_across(data: Seq<u8>, f: int, n: nat) -> u8
    decreases n,
{
    if n == 0 {
        0
    } else {
        let rest = finest_across(data, f, (n - 1) as nat);
        if across(data, f, n - 1) > rest {
            across(data, f, n - 1)
        } else {
            rest
        }
    }
}

/// The finest sampling down of the first `n` components of the frame at `f`.
pub open spec fn finest_down(data: Seq<u8>, f: int, n: nat) -> u8
    decreases n,
{
    if n == 0 {
        0
    } else {
        let rest = finest_down(data, f, (n - 1) as nat);
        if down(data, f, n - 1) > rest {
            down(data, f, n - 1)
        } else {
            rest
        }
    }
}

/// The finest sampling of the frame at `f`, across and down.
fn finest(data: &[u8], f: usize) -> (r: (u8, u8))
    requires
        frame_at(data@, f as int),
    ensures
        r.0 == finest_across(data@, f as int, data@[f + 9] as nat),
        r.1 == finest_down(data@, f as int, data@[f + 9] as nat),
{
    assert(data.len() == data@.len());
    let n: usize = data[f + 9] as usize;
    let mut h: u8 = 0;
    let mut v: u8 = 0;
    for k in 0..n
        invariant
            frame_at(data@, f as int),
            n == data@[f + 9],
            h == finest_across(data@, f as int, k as nat),
            v == finest_down(data@, f as int, k as nat),
    {
        assert(data.len() == data@.len());
        let b = data[f + 11 + 3 * k];
        if b / 16 > h {
            h = b / 16;
        }
        if b % 16 > v {
            v = b % 16;
        }
    }
    (h, v)
}

/// Width and height of the frame at `f`.
pub open spec fn size_at(data: Seq<u8>, f: int) -> (int, int) {
    (0x100 * data[f + 7] + data[f + 8], 0x100 * data[f + 5] + data[f + 6])
}

fn read_size(data: &[u8], f: usize) -> (r: (u32, u32))
    requires
        frame_at(data@, f as int),
    ensures
        (r.0 as int, r.1 as int) == size_at(data@, f as int),
{
    assert(data.len() == data@.len());
    (
        0x100 * data[f + 7] as u32 + data[f + 8] as u32,
        0x100 * data[f + 5] as u32 + data[f + 6] as u32,
    )
}

/// What zune-jpeg reads before the pixels: where the frame header stands, the colour transform
/// that an Adobe segment asks for, and where the first scan's header stands.
#[derive(Clone, Copy, PartialEq, Eq, Debug, Structural)]
pub struct Preamble {
    pub frame: Option<usize>,
    pub transform: Option<u8>,
    pub scan: usize,
}

/// An Adobe segment stands at `p`; its colour transform is then the byte at `p + 15`.
pub open spec fn adobe_at(data: Seq<u8>, p: int) -> bool {
    &&& p + 16 <= data.len()
    &&& data[p + 1] == 0xEE
    &&& data[p + 4] == 0x41 && data[p + 5] == 0x64 && data[p + 6] == 0x6F && data[p + 7] == 0x62
        && data[p + 8] == 0x65
}

/// Where zune-jpeg goes on reading after the segment at `p`. It reads five bytes of an APP0
/// segment that has but four.
pub open spec fn resumed_at(data: Seq<u8>, p: int) -> Option<int> {
    match segment_end(data, p) {
        Some(e) => if data[p + 1] == 0xE0 && e == p + 8 {
            if e < data.len() {
                Some(e + 1)
            } else {
                None
            }
        } else {
            Some(e)
        },
        None => None,
    }
}

/// What zune-jpeg reads from position `i` on up to the first scan, when it has read `frame` and
/// `transform` before. `None` of bytes whose headers it refuses: those that end too early, and
/// those with a frame header that is cut off. A frame of one component is grey, whatever an
/// Adobe segment before it said.
pub open spec fn preamble_from(
    data: Seq<u8>,
    i: int,
    frame: Option<usize>,
    transform: Option<u8>,
) -> Option<Preamble>
    decreases data.len() - i,
{
    proof {
        lemma_marker_from(data, i);
    }
    match marker_from(data, i) {
        None => None,
        Some(p) => if data[p + 1] == 0xDA {
            Some(Preamble { frame, transform, scan: p as usize })
        } else {
            match resumed_at(data, p) {
                None => None,
                Some(next) => if 0xC0 <= data[p + 1] <= 0xC2 {
                    if !frame_at(data, p) {
                        None
                    } else if data[p + 9] == 1 {
                        preamble_from(data, next, Some(p as usize), None)
                    } else {
                        preamble_from(data, next, Some(p as usize), transform)
                    }
                } else if adobe_at(data, p) {
                    preamble_from(data, next, frame, Some(data[p + 15]))
                } else {
                    preamble_from(data, next, frame, transform)
                },
            }
        },
    }
}

/// What zune-jpeg reads of `jpeg` before the pixels.
pub open spec fn preamble(jpeg: Seq<u8>) -> Option<Preamble> {
    preamble_from(jpeg, 2, None, None)
}

fn is_adobe(data: &[u8], p: usize) -> (b: bool)
    requires
        p + 2 <= data@.len(),
    ensures
        b == adobe_at(data@, p as int),
{
    assert(data.len() == data@.len());
    data.len() - p >= 16 && data[p + 1] == 0xEE && data[p + 4] == 0x41 && data[p + 5] == 0x64
        && data[p + 6] == 0x6F && data[p + 7] == 0x62 && data[p + 8] == 0x65
}

/// What zune-jpeg reads of `jpeg` before the pixels.
pub fn read_preamble(jpeg: &[u8]) -> (r: Option<Preamble>)
    ensures
        r == preamble(jpeg@),
        r matches Some(p) ==> {
            &&& p.scan + 2 <= jpeg@.len()
            &&& p.frame matches Some(f) ==> frame_at(jpeg@, f as int)
        },
{
    let total: usize = jpeg.len();
    let mut i: usize = 2;
    let mut frame: Option<usize> = None;
    let mut transform: Option<u8> = None;
    loop
        invariant
            total == jpeg@.len(),
            i <= total || i == 2,
            preamble(jpeg@) == preamble_from(jpeg@, i as int, frame, transform),
            frame matches Some(f) ==> frame_at(jpeg@, f as int),
        decreases total - i,
    {
        proof {
            lemma_marker_from(jpeg@, i as int);
        }
        let p: usize = match find_marker(jpeg, i) {
            Some(p) => p,
            None => {
                return None;
            },
        };
        let m = jpeg[p + 1];
        if m == 0xDA {
            return Some(Preamble { frame, transform, scan: p });
        }
        let mut next: usize = match find_segment_end(jpeg, p) {
            Some(e) => e,
            None => {
                return None;
            },
        };
        if m == 0xE0 && next - p == 8 {
            if next >= total {
                return None;
            }
            next = next + 1;
        }
        if 0xC0 <= m && m <= 0xC2 {
            if !has_frame_at(jpeg, p) {
                return None;
            }
            if jpeg[p + 9] == 1 {
                transform = None;
            }
            frame = Some(p);
        } else if is_adobe(jpeg, p) {
            transform = Some(jpeg[p + 15]);
        }
        i = next;
    }
}

/// Why zune-jpeg cannot be given a file although it accepts its headers.
#[derive(Clone, Copy, PartialEq, Eq, Debug, Structural)]
pub enum Hurdle {
    /// There is no frame.
    NoFrame,
    /// The frame has fewer components than its colour transform needs.
    FewComponents,
    /// The frame's components are sampled in a way that is not supported.
    Sampling,
}

/// Component `k` of the frame at `f` is sampled half as finely as the finest, across and down,
/// and down no more than once.
pub open spec fn quartered(data: Seq<u8>, f: int, k: int) -> bool {
    let n = data[f + 9] as nat;
    2 * across(data, f, k) == finest_across(data, f, n) && down(data, f, k) == 1 && finest_down(
        data,
        f,
        n,
    ) == 2
}

/// The frame at `f` does not fit into the room that is set aside when it is decoded whole before
/// it is upsampled. That goes by the width of the first component, which here is narrower than
/// another one. Either a row must be doubled both ways in it; or, when the frame is `sequential`,
/// rows of more than one block are laid out wider than there is room for.
pub open spec fn cramped(data: Seq<u8>, f: int, sequential: bool) -> bool {
    let n = data[f + 9] as nat;
    &&& across(data, f, 0) < finest_across(data, f, n)
    &&& (exists|k: int| 0 <= k < n && #[trigger] quartered(data, f, k)) || (sequential && size_at(
        data,
        f,
    ).0 > 8 * across(data, f, 0))
}

/// The scan at `s` has all `n` components of its frame.
pub open spec fn scans_all(data: Seq<u8>, s: int, n: u8) -> bool {
    s + 5 <= data.len() && data[s + 4] == n
}

/// What keeps zune-jpeg from decoding the pixels of `jpeg`, if anything does. A frame is decoded
/// whole before it is upsampled when it is progressive, or when its components come in several
/// scans.
pub open spec fn hurdle(jpeg: Seq<u8>) -> Option<Hurdle> {
    match preamble(jpeg) {
        Some(p) => match p.frame {
            Some(f) => {
                let n = jpeg[f + 9];
                let progressive = jpeg[f + 1] == 0xC2;
                if progressive && n < 3 && p.transform == Some(2u8) {
                    Some(Hurdle::FewComponents)
                } else if (progressive || !scans_all(jpeg, p.scan as int, n)) && cramped(
                    jpeg,
                    f as int,
                    !progressive,
                ) {
                    Some(Hurdle::Sampling)
                } else {
                    None
                }
            },
            None => Some(Hurdle::NoFrame),
        },
        None => Some(Hurdle::NoFrame),
    }
}

fn is_cramped(data: &[u8], f: usize, sequential: bool) -> (b: bool)
    requires
        frame_at(data@, f as int),
    ensures
        b == cramped(data@, f as int, sequential),
{
    assert(data.len() == data@.len());
    let n: usize = data[f + 9] as usize;
    let (h, v) = finest(data, f);
    let first = data[f + 11] / 16;
    if first >= h {
        return false;
    }
    if sequential && read_size(data, f).0 > 8 * first as u32 {
        return true;
    }
    if v != 2 {
        return false;
    }
    for k in 0..n
        invariant
            frame_at(data@, f as int),
            n == data@[f + 9],
            h == finest_across(data@, f as int, n as nat),
            v == finest_down(data@, f as int, n as nat),
            v == 2,
            across(data@, f as int, 0) < h,
            forall|j: int| 0 <= j < k ==> !#[trigger] quartered(data@, f as int, j),
    {
        assert(data.len() == data@.len());
        let b = data[f + 11 + 3 * k];
        if 2 * (b / 16) == h && b % 16 == 1 {
            assert(quartered(data@, f as int, k as int));
            return true;
        }
    }
    false
}

/// What keeps zune-jpeg from decoding the pixels of `jpeg`, if anything does.
pub fn find_hurdle(jpeg: &[u8]) -> (r: Option<Hurdle>)
    ensures
        r == hurdle(jpeg@),
{
    let p = match read_preamble(jpeg) {
        Some(p) => p,
        None => {
            return Some(Hurdle::NoFrame);
        },
    };
    let f: usize = match p.frame {
        Some(f) => f,
        None => {
            return Some(Hurdle::NoFrame);
        },
    };
    assert(jpeg.len() == jpeg@.len());
    let n = jpeg[f + 9];
    let progressive: bool = jpeg[f + 1] == 0xC2;
    if progressive && n < 3 {
        if let Some(t) = p.transform {
            if t == 2 {
                return Some(Hurdle::FewComponents);
            }
        }
    }
    let all: bool = jpeg.len() - p.scan >= 5 && jpeg[p.scan + 4] == n;
    if (progressive || !all) && is_cramped(jpeg, f, !progressive) {
        return Some(Hurdle::Sampling);
    }
    None
}

/// The frame header that jpeg-decoder finds from position `i` on: the first, if it comes before
/// a scan and is all there.
pub open spec fn frame_from(data: Seq<u8>, i: int) -> Option<int>
    decreases data.len() - i,
{
    proof {
        lemma_marker_from(data, i);
    }
    match marker_from(data, i) {
        None => None,
        Some(p) => if decode::is_sof(data[p + 1]) {
            if frame_at(data, p) {
                Some(p)
            } else {
                None
            }
        } else if data[p + 1] == 0xDA {
            None
        } else {
            match segment_end(data, p) {
                Some(next) => frame_from(data, next),
                None => None,
            }
        },
    }
}

fn find_frame(data: &[u8]) -> (r: Option<usize>)
    ensures
        r matches Some(f) ==> frame_from(data@, 2) == Some(f as int) && frame_at(data@, f as int),
        r is None ==> frame_from(data@, 2) is None,
{
    let total: usize = data.len();
    let mut i: usize = 2;
    loop
        invariant
            total == data@.len(),
            i <= total || i == 2,
            frame_from(data@, 2) == frame_from(data@, i as int),
        decreases total - i,
    {
        proof {
            lemma_marker_from(data@, i as int);
        }
        let p: usize = match find_marker(data, i) {
            Some(p) => p,
            None => {
                return None;
            },
        };
        if is_frame_marker(data[p + 1]) {
            if has_frame_at(data, p) {
                return Some(p);
            }
            return None;
        }
        if data[p + 1] == 0xDA {
            return None;
        }
        match find_segment_end(data, p) {
            Some(e) => {
                i = e;
            },
            None => {
                return None;
            },
        }
    }
}

/// The longest side of which the decoder can count the next block in sixteen bits.
pub const MAX_SIDE: u32 = 65528;

/// A scan of one component of the frame at `f` can run past the last block whose position fits
/// into sixteen bits: there are too many rows, or as many columns in blocks of three.
pub open spec fn oversized(data: Seq<u8>, f: int) -> bool {
    let (w, h) = size_at(data, f);
    h > MAX_SIDE || (w > MAX_SIDE && finest_across(data, f, data[f + 9] as nat) == 3)
}

/// The header of a scan of one component stands at `i`.
pub open spec fn lone_scan_at(data: Seq<u8>, i: int) -> bool {
    0 <= i && i + 5 <= data.len() && data[i] == 0xFF && data[i + 1] == 0xDA && data[i + 4] == 1
}

/// jpeg-decoder can count the blocks of the frame that it reads in `jpeg`: the frame is not too
/// large, or no scan after it has but one component.
pub open spec fn countable(jpeg: Seq<u8>) -> bool {
    match frame_from(jpeg, 2) {
        Some(f) => !oversized(jpeg, f) || forall|i: int|
            f < i ==> !#[trigger] lone_scan_at(jpeg, i),
        None => true,
    }
}

/// Whether jpeg-decoder can count the blocks of the frame that it reads in `jpeg`.
pub fn is_countable(jpeg: &[u8]) -> (b: bool)
    ensures
        b == countable(jpeg@),
{
    let f: usize = match find_frame(jpeg) {
        Some(f) => f,
        None => {
            return true;
        },
    };
    let (w, h) = read_size(jpeg, f);
    if h <= MAX_SIDE && (w <= MAX_SIDE || finest(jpeg, f).0 != 3) {
        return true;
    }
    let total: usize = jpeg.len();
    let mut i: usize = f + 1;
    while i < total
        invariant
            total == jpeg@.len(),
            f < i <= total,
            frame_from(jpeg@, 2) == Some(f as int),
            oversized(jpeg@, f as int),
            forall|j: int| f < j < i ==> !#[trigger] lone_scan_at(jpeg@, j),
        decreases total - i,
    {
        if jpeg[i] == 0xFF && total - i >= 5 && jpeg[i + 1] == 0xDA && jpeg[i + 4] == 1 {
            assert(lone_scan_at(jpeg@, i as int));
            return false;
        }
        i = i + 1;
    }
    true
}

} // verus!

//! Minimal TIFF/EXIF reader.
//!
//! Serves two purposes:
//!   * Sony ARW: walk the top-level IFD chain to find embedded JPEG previews. The
//!     full-resolution preview lives in its own IFD with `JPEGInterchangeFormat`.
//!   * Plain JPEG: the APP1 `Exif\0\0` payload *is* a TIFF stream, so the same parser
//!     yields orientation and the `ColorSpace` tag.
//!
//! Every input is accepted: this parser is pointed at arbitrary files on disk, so
//! malformed bytes yield an answer, never a failure.
use vstd::prelude::*;
use vstd::slice::slice_subrange;

verus! {

/// Byte order of a TIFF stream.
#[derive(Clone, Copy, PartialEq, Eq, Debug, Structural)]
pub enum Endian {
    Little,
    Big,
}

/// The 16-bit value stored at `at`, or `None` when it does not fit in the bytes.
pub open spec fn u16_at(e: Endian, b: Seq<u8>, at: int) -> Option<u16> {
    if 0 <= at && at + 2 <= b.len() {
        Some(
            match e {
                Endian::Little => (b[at] + 256 * b[at + 1]) as u16,
                Endian::Big => (256 * b[at] + b[at + 1]) as u16,
            },
        )
    } else {
        None
    }
}

/// The 32-bit value stored at `at`, or `None` when it does not fit in the bytes.
pub open spec fn u32_at(e: Endian, b: Seq<u8>, at: int) -> Option<u32> {
    if 0 <= at && at + 4 <= b.len() {
        Some(
            match e {
                Endian::Little => (b[at] + 0x100 * b[at + 1] + 0x1_0000 * b[at + 2] + 0x100_0000
                    * b[at + 3]) as u32,
                Endian::Big => (0x100_0000 * b[at] + 0x1_0000 * b[at + 1] + 0x100 * b[at + 2]
                    + b[at + 3]) as u32,
            },
        )
    } else {
        None
    }
}

impl Endian {
    /// The 16-bit value at the start of `b`.
    pub fn u16(self, b: &[u8]) -> (r: Option<u16>)
        ensures
            r == u16_at(self, b@, 0),
    {
        self.u16_from(b, 0)
    }

    /// The 32-bit value at the start of `b`.
    pub fn u32(self, b: &[u8]) -> (r: Option<u32>)
        ensures
            r == u32_at(self, b@, 0),
    {
        self.u32_from(b, 0)
    }

    /// The 16-bit value at offset `at` of `b`.
    pub fn u16_from(self, b: &[u8], at: usize) -> (r: Option<u16>)
        ensures
            r == u16_at(self, b@, at as int),
    {
        if at > b.len() || b.len() - at < 2 {
            return None;
        }
        Some(
            match self {
                Endian::Little => b[at] as u16 + 256 * (b[at + 1] as u16),
                Endian::Big => 256 * (b[at] as u16) + b[at + 1] as u16,
            },
        )
    }

    /// The 32-bit value at offset `at` of `b`.
    pub fn u32_from(self, b: &[u8], at: usize) -> (r: Option<u32>)
        ensures
            r == u32_at(self, b@, at as int),
    {
        if at > b.len() || b.len() - at < 4 {
            return None;
        }
        let (p, q, r, s): (u32, u32, u32, u32) = (
            b[at] as u32,
            b[at + 1] as u32,
            b[at + 2] as u32,
            b[at + 3] as u32,
        );
        Some(
            match self {
                Endian::Little => p + 0x100 * q + 0x1_0000 * r + 0x100_0000 * s,
                Endian::Big => 0x100_0000 * p + 0x1_0000 * q + 0x100 * r + s,
            },
        )
    }
}

// The tags that matter here.
pub const TAG_IMAGE_WIDTH: u16 = 0x0100;

pub const TAG_IMAGE_LENGTH: u16 = 0x0101;

pub const TAG_ORIENTATION: u16 = 0x0112;

pub const TAG_JPEG_OFFSET: u16 = 0x0201;

pub const TAG_JPEG_LENGTH: u16 = 0x0202;

pub const TAG_EXIF_IFD: u16 = 0x8769;

pub const TAG_COLOR_SPACE: u16 = 0xA001;

/// Most IFDs followed along the top-level chain.
pub const MAX_IFDS: usize = 16;

/// Most EXIF IFDs read on behalf of one IFD of the chain, those that they point at included: as
/// many as it has room to point at. A file whose IFDs point at each other must neither keep the
/// reader busy nor take it too deep.
pub const MAX_EXIF_IFDS: usize = 512;

/// Most entries an IFD may declare before it is taken for garbage.
pub const MAX_ENTRIES: u16 = 512;

/// An embedded JPEG image found inside a TIFF container.
#[derive(Clone, Copy, Debug, PartialEq, Eq, Structural)]
pub struct Preview {
    pub offset: usize,
    pub len: usize,
    /// Dimensions as declared by the containing IFD. Zero when the IFD omits them
    /// (thumbnail IFDs often do).
    pub width: u32,
    pub height: u32,
    pub orientation: u16,
}

impl Preview {
    pub open spec fn spec_pixels(self) -> int {
        self.width * self.height
    }

    /// Declared pixel count.
    pub fn pixels(&self) -> (n: u64)
        ensures
            n == self.spec_pixels(),
    {
        proof {
            assert(0 <= self.width * self.height <= 0xffff_ffff * 0xffff_ffff) by (nonlinear_arith)
                requires
                    0 <= self.width <= 0xffff_ffff,
                    0 <= self.height <= 0xffff_ffff,
            ;
        }
        self.width as u64 * self.height as u64
    }

    /// `self` ranks no higher than `other`: declared pixel count first, byte length second.
    pub open spec fn ranks_le(self, other: Preview) -> bool {
        self.spec_pixels() < other.spec_pixels() || (self.spec_pixels() == other.spec_pixels()
            && self.len <= other.len)
    }
}

/// EXIF `ColorSpace` (0xA001).
#[derive(Clone, Copy, Debug, PartialEq, Eq, Structural)]
pub enum ColorSpace {
    Srgb,
    AdobeRgb,
    /// Present with a value of no known meaning, such as the "uncalibrated" 0xFFFF.
    Unknown,
}

/// What a TIFF stream says.
#[derive(Clone, Debug, Default)]
pub struct TiffInfo {
    /// EXIF orientation, 1..=8. 1 when absent or out of range.
    pub orientation: u16,
    pub previews: Vec<Preview>,
    pub color_space: Option<ColorSpace>,
}

/// The mathematical content of a [`TiffInfo`].
#[verifier::ext_equal]
pub struct TiffFacts {
    pub orientation: u16,
    pub previews: Seq<Preview>,
    pub color_space: Option<ColorSpace>,
}

impl View for TiffInfo {
    type V = TiffFacts;

    open spec fn view(&self) -> TiffFacts {
        TiffFacts {
            orientation: self.orientation,
            previews: self.previews@,
            color_space: self.color_space,
        }
    }
}

/// Position of entry `i` of the IFD at `off`.
pub open spec fn entry_pos(off: int, i: int) -> int {
    off + 2 + 12 * i
}

/// The value of the entry at `at` when its type is SHORT or LONG; both fit inline.
pub open spec fn entry_scalar(e: Endian, data: Seq<u8>, at: int) -> Option<u32> {
    match u16_at(e, data, at + 2) {
        Some(3) => match u16_at(e, data, at + 8) {
            Some(v) => Some(v as u32),
            None => None,
        },
        Some(4) => u32_at(e, data, at + 8),
        _ => None,
    }
}

/// The value that the last of the first `n` entries with `tag` gives it.
pub open spec fn last_scalar(e: Endian, data: Seq<u8>, off: int, n: nat, tag: u16) -> Option<u32>
    decreases n,
{
    if n == 0 {
        None
    } else {
        let at = entry_pos(off, n - 1);
        if u16_at(e, data, at) == Some(tag) && entry_scalar(e, data, at) is Some {
            entry_scalar(e, data, at)
        } else {
            last_scalar(e, data, off, (n - 1) as nat, tag)
        }
    }
}

/// What a `ColorSpace` value means.
pub open spec fn color_space_of(v: u32) -> ColorSpace {
    if v == 1 {
        ColorSpace::Srgb
    } else if v == 2 {
        ColorSpace::AdobeRgb
    } else {
        ColorSpace::Unknown
    }
}

/// `info` after the first `n` entries of the IFD at `off`, and how many more EXIF IFDs may be
/// read then, when it was `left` before: `ColorSpace` entries set the colour space, EXIF
/// pointers bring in everything their IFD holds.
pub open spec fn walk(e: Endian, data: Seq<u8>, off: int, n: nat, left: nat, info: TiffFacts) -> (
    TiffFacts,
    nat,
)
    decreases left, 0int, n,
{
    if n == 0 {
        (info, left)
    } else {
        let (before, rest) = walk(e, data, off, (n - 1) as nat, left, info);
        let at = entry_pos(off, n - 1);
        match (u16_at(e, data, at), entry_scalar(e, data, at)) {
            (Some(tag), Some(v)) => if tag == TAG_COLOR_SPACE {
                (TiffFacts { color_space: Some(color_space_of(v)), ..before }, rest)
            } else if tag == TAG_EXIF_IFD && 0 < rest <= left {
                let sub = ifd(e, data, v as int, (rest - 1) as nat, before);
                (sub.0, sub.2)
            } else {
                (before, rest)
            },
            _ => (before, rest),
        }
    }
}

/// The number of entries of the IFD at `off` that lie within the data.
pub open spec fn whole_entries(data: Seq<u8>, off: int, count: u16) -> nat {
    let room = (data.len() - off - 2) / 12;
    if room < count {
        room as nat
    } else {
        count as nat
    }
}

/// The orientation an IFD's entries declare; 0 when they declare none.
pub open spec fn ifd_orientation(e: Endian, data: Seq<u8>, off: int, n: nat) -> u16 {
    match last_scalar(e, data, off, n, TAG_ORIENTATION) {
        Some(v) => (v % 0x1_0000) as u16,
        None => 0,
    }
}

/// A JPEG of `l` bytes really starts at `o`.
pub open spec fn is_jpeg_at(data: Seq<u8>, o: int, l: int) -> bool {
    &&& l > 0
    &&& 0 <= o && o + l <= data.len()
    &&& o + 3 <= data.len()
    &&& data[o] == 0xFF && data[o + 1] == 0xD8 && data[o + 2] == 0xFF
}

/// The preview declared by the first `n` entries of the IFD at `off`, if they point at a JPEG.
pub open spec fn ifd_preview(e: Endian, data: Seq<u8>, off: int, n: nat) -> Option<Preview> {
    let width = last_scalar(e, data, off, n, TAG_IMAGE_WIDTH);
    let height = last_scalar(e, data, off, n, TAG_IMAGE_LENGTH);
    let orientation = ifd_orientation(e, data, off, n);
    match (
        last_scalar(e, data, off, n, TAG_JPEG_OFFSET),
        last_scalar(e, data, off, n, TAG_JPEG_LENGTH),
    ) {
        (Some(o), Some(l)) => if is_jpeg_at(data, o as int, l as int) {
            Some(
                Preview {
                    offset: o as usize,
                    len: l as usize,
                    width: match width {
                        Some(w) => w,
                        None => 0,
                    },
                    height: match height {
                        Some(h) => h,
                        None => 0,
                    },
                    orientation: if 1 <= orientation <= 8 {
                        orientation
                    } else {
                        1
                    },
                },
            )
        } else {
            None
        },
        _ => None,
    }
}

/// `info` with what a whole IFD declares: the first orientation found is the file's own,
/// and a preview joins the list.
pub open spec fn ifd_finished(
    info: TiffFacts,
    orientation: u16,
    preview: Option<Preview>,
) -> TiffFacts {
    TiffFacts {
        orientation: if info.orientation <= 1 && 1 <= orientation <= 8 {
            orientation
        } else {
            info.orientation
        },
        previews: match preview {
            Some(p) => info.previews.push(p),
            None => info.previews,
        },
        color_space: info.color_space,
    }
}

/// What reading the IFD at `off` makes of `info`, the offset of the next IFD, and how many more
/// EXIF IFDs may be read then, when it was `left` before.
pub open spec fn ifd(e: Endian, data: Seq<u8>, off: int, left: nat, info: TiffFacts) -> (
    TiffFacts,
    Option<u32>,
    nat,
)
    decreases left, 1int, 0nat,
{
    match u16_at(e, data, off) {
        None => (info, None, left),
        Some(count) => if count > MAX_ENTRIES {
            (info, None, left)
        } else {
            let n = whole_entries(data, off, count);
            let (walked, rest) = walk(e, data, off, n, left, info);
            if n < count {
                (walked, None, rest)
            } else {
                (
                    ifd_finished(
                        walked,
                        ifd_orientation(e, data, off, n),
                        ifd_preview(e, data, off, n),
                    ),
                    u32_at(e, data, entry_pos(off, n as int)),
                    rest,
                )
            }
        },
    }
}

/// What following the top-level chain from `next` makes of `info`: at most `left` IFDs, none
/// of them twice, up to the first that cannot be read whole.
pub open spec fn chain(
    e: Endian,
    data: Seq<u8>,
    next: u32,
    seen: Seq<usize>,
    left: nat,
    info: TiffFacts,
) -> TiffFacts
    decreases left,
{
    if left == 0 || next == 0 || seen.contains(next as usize) {
        info
    } else {
        let (after, link, _) = ifd(e, data, next as int, MAX_EXIF_IFDS as nat, info);
        match link {
            None => after,
            Some(l) => chain(e, data, l, seen.push(next as usize), (left - 1) as nat, after),
        }
    }
}

/// The byte order a TIFF header declares.
pub open spec fn header_endian(data: Seq<u8>) -> Option<Endian> {
    if data.len() < 2 {
        None
    } else if data[0] == 0x49 && data[1] == 0x49 {
        Some(Endian::Little)
    } else if data[0] == 0x4D && data[1] == 0x4D {
        Some(Endian::Big)
    } else {
        None
    }
}

/// What a TIFF stream says: `None` unless it opens with a byte-order mark, the magic 42 and
/// the offset of its first IFD.
pub open spec fn spec_parse(data: Seq<u8>) -> Option<TiffFacts> {
    match header_endian(data) {
        None => None,
        Some(e) => if u16_at(e, data, 2) != Some(42u16) {
            None
        } else {
            match u32_at(e, data, 4) {
                None => None,
                Some(first) => Some(
                    chain(
                        e,
                        data,
                        first,
                        Seq::empty(),
                        MAX_IFDS as nat,
                        TiffFacts { orientation: 1, previews: Seq::empty(), color_space: None },
                    ),
                ),
            }
        },
    }
}

/// The highest-ranked of `previews`; of equals, the last.
pub open spec fn largest(previews: Seq<Preview>) -> Option<Preview>
    decreases previews.len(),
{
    if previews.len() == 0 {
        None
    } else {
        match largest(previews.drop_last()) {
            Some(best) => if best.ranks_le(previews.last()) {
                Some(previews.last())
            } else {
                Some(best)
            },
            None => Some(previews.last()),
        }
    }
}

/// `p` is the last among the highest-ranked of `previews`.
pub open spec fn is_largest(previews: Seq<Preview>, p: Preview) -> bool {
    exists|i: int|
        {
            &&& 0 <= i < previews.len()
            &&& #[trigger] previews[i] == p
            &&& forall|j: int| 0 <= j < previews.len() ==> previews[j].ranks_le(p)
            &&& forall|j: int| i < j < previews.len() ==> !p.ranks_le(previews[j])
        }
}

/// The largest preview is the last among the highest-ranked ones.
pub proof fn law_largest_ranks_highest(previews: Seq<Preview>)
    ensures
        largest(previews) is None <==> previews.len() == 0,
        largest(previews) matches Some(p) ==> is_largest(previews, p),
    decreases previews.len(),
{
    if previews.len() > 0 {
        let init = previews.drop_last();
        law_largest_ranks_highest(init);
        let last = previews.last();
        assert(previews[previews.len() - 1] == last);
        if let Some(best) = largest(init) {
            let i = choose|i: int|
                {
                    &&& 0 <= i < init.len()
                    &&& #[trigger] init[i] == best
                    &&& forall|j: int| 0 <= j < init.len() ==> init[j].ranks_le(best)
                    &&& forall|j: int| i < j < init.len() ==> !best.ranks_le(init[j])
                };
            assert(previews[i] == best);
            assert forall|j: int| 0 <= j < previews.len() implies previews[j].ranks_le(
                largest(previews)->0,
            ) by {
                if j < init.len() {
                    assert(init[j] == previews[j]);
                }
            }
            if !best.ranks_le(last) {
                assert forall|j: int| i < j < previews.len() implies !best.ranks_le(
                    previews[j],
                ) by {
                    if j < init.len() {
                        assert(init[j] == previews[j]);
                    }
                }
            }
        }
    }
}

/// The largest preview is one of them, none has more pixels, and none with as many has more
/// bytes.
pub proof fn law_largest_has_the_most_pixels(previews: Seq<Preview>)
    ensures
        previews.len() > 0 ==> largest(previews) is Some,
        previews.len() == 0 ==> largest(previews) is None,
        largest(previews) matches Some(p) ==> {
            &&& previews.contains(p)
            &&& forall|i: int|
                0 <= i < previews.len() ==> (#[trigger] previews[i]).width * previews[i].height
                    <= p.width * p.height
            &&& forall|i: int|
                0 <= i < previews.len() && (#[trigger] previews[i]).width * previews[i].height
                    == p.width * p.height ==> previews[i].len <= p.len
        },
{
    law_largest_ranks_highest(previews);
    if let Some(p) = largest(previews) {
        assert forall|i: int| 0 <= i < previews.len() implies (#[trigger] previews[i]).ranks_le(
            p,
        ) by {}
    }
}

impl TiffInfo {
    /// The largest embedded preview, ranked by declared pixel count and then byte
    /// length. For an ARW this is the full-resolution preview. Of equals, the last.
    pub fn largest_preview(&self) -> (r: Option<Preview>)
        ensures
            r == largest(self.previews@),
            r is None <==> self.previews@.len() == 0,
            r matches Some(p) ==> is_largest(self.previews@, p),
    {
        proof {
            law_largest_ranks_highest(self.previews@);
        }
        let mut best: Option<Preview> = None;
        for i in 0..self.previews.len()
            invariant
                best == largest(self.previews@.take(i as int)),
        {
            let q = self.previews[i];
            assert(self.previews@.take(i + 1).drop_last() == self.previews@.take(i as int));
            let replace = match best {
                Some(p) => p.pixels() < q.pixels() || (p.pixels() == q.pixels() && p.len <= q.len),
                None => true,
            };
            if replace {
                best = Some(q);
            }
        }
        assert(self.previews@.take(self.previews@.len() as int) == self.previews@);
        best
    }
}

/// Parse a TIFF stream: an ARW file, or the payload of a JPEG APP1 `Exif` segment.
///
/// `data` must start at the TIFF header (`II`/`MM` + magic).
pub fn parse(data: &[u8]) -> (r: Option<TiffInfo>)
    ensures
        r is Some <==> spec_parse(data@) is Some,
        r matches Some(info) ==> Some(info@) == spec_parse(data@),
{
    if data.len() < 2 {
        return None;
    }
    let endian = if data[0] == 0x49 && data[1] == 0x49 {
        Endian::Little
    } else if data[0] == 0x4D && data[1] == 0x4D {
        Endian::Big
    } else {
        return None;
    };
    match endian.u16_from(data, 2) {
        Some(42) => {},
        _ => {
            return None;
        },
    }
    let first: u32 = match endian.u32_from(data, 4) {
        Some(v) => v,
        None => {
            return None;
        },
    };
    let mut info = TiffInfo { orientation: 1, previews: Vec::new(), color_space: None };
    let ghost facts = spec_parse(data@);
    assert(info@ == (TiffFacts { orientation: 1, previews: Seq::empty(), color_space: None }));
    let mut next: u32 = first;
    let mut seen: Vec<usize> = Vec::new();
    let mut left: usize = MAX_IFDS;
    assert(seen@ == Seq::<usize>::empty());
    while left > 0 && next != 0 && !contains_offset(&seen, next as usize)
        invariant_except_break
            facts == Some(chain(endian, data@, next, seen@, left as nat, info@)),
        ensures
            facts == Some(info@),
        decreases left,
    {
        let mut exif_left: usize = MAX_EXIF_IFDS;
        let link = read_ifd(data, next as usize, endian, &mut info, &mut exif_left);
        match link {
            None => {
                break;
            },
            Some(l) => {
                seen.push(next as usize);
                next = l;
                left = left - 1;
            },
        }
    }
    Some(info)
}

/// `v` is among `offsets`.
fn contains_offset(offsets: &Vec<usize>, v: usize) -> (r: bool)
    ensures
        r == offsets@.contains(v),
{
    for i in 0..offsets.len()
        invariant
            forall|j: int| 0 <= j < i ==> offsets@[j] != v,
    {
        if offsets[i] == v {
            return true;
        }
    }
    false
}

/// The value of the entry at `at`, which lies within the data.
fn read_scalar(data: &[u8], at: usize, endian: Endian) -> (r: Option<u32>)
    requires
        at + 12 <= data@.len(),
    ensures
        r == entry_scalar(endian, data@, at as int),
{
    assert(data.len() == data@.len());
    // Types 3 (SHORT) and 4 (LONG) both fit inline; that covers every tag here.
    match endian.u16_from(data, at + 2) {
        Some(3) => match endian.u16_from(data, at + 8) {
            Some(v) => Some(v as u32),
            None => None,
        },
        Some(4) => endian.u32_from(data, at + 8),
        _ => None,
    }
}

proof fn lemma_walk_left(
    e: Endian,
    data: Seq<u8>,
    off: int,
    n: nat,
    left: nat,
    info: TiffFacts,
)
    ensures
        walk(e, data, off, n, left, info).1 <= left,
    decreases left, 0int, n,
{
    if n > 0 {
        lemma_walk_left(e, data, off, (n - 1) as nat, left, info);
        let (before, rest) = walk(e, data, off, (n - 1) as nat, left, info);
        let at = entry_pos(off, n - 1);
        if let (Some(tag), Some(v)) = (u16_at(e, data, at), entry_scalar(e, data, at)) {
            if tag != TAG_COLOR_SPACE && tag == TAG_EXIF_IFD && 0 < rest <= left {
                lemma_ifd_left(e, data, v as int, (rest - 1) as nat, before);
            }
        }
    }
}

proof fn lemma_ifd_left(e: Endian, data: Seq<u8>, off: int, left: nat, info: TiffFacts)
    ensures
        ifd(e, data, off, left, info).2 <= left,
    decreases left, 1int, 0nat,
{
    if let Some(count) = u16_at(e, data, off) {
        if count <= MAX_ENTRIES {
            lemma_walk_left(e, data, off, whole_entries(data, off, count), left, info);
        }
    }
}

/// Read one IFD, folding its contents into `info`. Returns the offset of the next IFD. `left`
/// counts down the EXIF IFDs that may still be read.
fn read_ifd(
    data: &[u8],
    off: usize,
    endian: Endian,
    info: &mut TiffInfo,
    left: &mut usize,
) -> (r: Option<u32>)
    ensures
        (final(info)@, r, *final(left) as nat) == ifd(
            endian,
            data@,
            off as int,
            *old(left) as nat,
            old(info)@,
        ),
    decreases *old(left),
{
    let ghost allowed = *left as nat;
    let ghost start = info@;
    let count: u16 = match endian.u16_from(data, off) {
        Some(c) => c,
        None => {
            return None;
        },
    };
    if count > MAX_ENTRIES {
        return None;
    }
    let mut jpeg_offset: Option<u32> = None;
    let mut jpeg_len: Option<u32> = None;
    let mut width: u32 = 0;
    let mut height: u32 = 0;
    // Orientation is per-IFD; the preview IFD carries its own copy.
    let mut orientation: u16 = 0;
    let len: usize = data.len();
    let mut at: usize = off + 2;
    let mut i: u16 = 0;
    let ghost n = whole_entries(data@, off as int, count);
    while i < count
        invariant
            i <= count <= MAX_ENTRIES,
            i <= n,
            n == whole_entries(data@, off as int, count),
            u16_at(endian, data@, off as int) == Some(count),
            at == entry_pos(off as int, i as int),
            at <= len,
            len == data@.len(),
            allowed == *old(left),
            start == old(info)@,
            (info@, *left as nat) == walk(endian, data@, off as int, i as nat, allowed, start),
            *left <= allowed,
            jpeg_offset == last_scalar(endian, data@, off as int, i as nat, TAG_JPEG_OFFSET),
            jpeg_len == last_scalar(endian, data@, off as int, i as nat, TAG_JPEG_LENGTH),
            width == (match last_scalar(endian, data@, off as int, i as nat, TAG_IMAGE_WIDTH) {
                Some(w) => w,
                None => 0,
            }),
            height == (match last_scalar(endian, data@, off as int, i as nat, TAG_IMAGE_LENGTH) {
                Some(h) => h,
                None => 0,
            }),
            orientation == ifd_orientation(endian, data@, off as int, i as nat),
        decreases count - i,
    {
        if len - at < 12 {
            assert(n == i);
            return None;
        }
        let tag = endian.u16_from(data, at);
        let scalar = read_scalar(data, at, endian);
        if let (Some(tag), Some(v)) = (tag, scalar) {
            if tag == TAG_IMAGE_WIDTH {
                width = v;
            } else if tag == TAG_IMAGE_LENGTH {
                height = v;
            } else if tag == TAG_ORIENTATION {
                orientation = (v % 0x1_0000) as u16;
            } else if tag == TAG_JPEG_OFFSET {
                jpeg_offset = Some(v);
            } else if tag == TAG_JPEG_LENGTH {
                jpeg_len = Some(v);
            } else if tag == TAG_COLOR_SPACE {
                info.color_space = Some(
                    if v == 1 {
                        ColorSpace::Srgb
                    } else if v == 2 {
                        ColorSpace::AdobeRgb
                    } else {
                        ColorSpace::Unknown
                    },
                );
            } else if tag == TAG_EXIF_IFD {
                // Sub-IFD; recurse for ColorSpace. Its link field is ignored.
                if *left > 0 {
                    *left = *left - 1;
                    read_ifd(data, v as usize, endian, info, left);
                }
            }
        }
        proof {
            lemma_walk_left(endian, data@, off as int, (i + 1) as nat, allowed, start);
        }
        at = at + 12;
        i = i + 1;
    }
    assert(n == count);
    // The first orientation encountered (IFD0's) is the authoritative one for the file.
    if info.orientation <= 1 && 1 <= orientation && orientation <= 8 {
        info.orientation = orientation;
    }
    // Record a preview only if the pointer really lands on a JPEG SOI, so that a
    // bogus tag can never hand a garbage range to the decoder.
    if let (Some(o), Some(l)) = (jpeg_offset, jpeg_len) {
        let (o, l): (usize, usize) = (o as usize, l as usize);
        if l > 0 && o <= data.len() && l <= data.len() - o && data.len() - o >= 3 && data[o]
            == 0xFF && data[o + 1] == 0xD8 && data[o + 2] == 0xFF {
            info.previews.push(
                Preview {
                    offset: o,
                    len: l,
                    width,
                    height,
                    orientation: if 1 <= orientation && orientation <= 8 {
                        orientation
                    } else {
                        1
                    },
                },
            );
        }
    }
    endian.u32_from(data, at)
}

/// What holds of everything a TIFF stream is read into: the orientation is a real one, and
/// every preview is a JPEG that lies within the data.
pub open spec fn sound(data: Seq<u8>, info: TiffFacts) -> bool {
    &&& 1 <= info.orientation <= 8
    &&& forall|i: int|
        0 <= i < info.previews.len() ==> {
            let p = #[trigger] info.previews[i];
            is_jpeg_at(data, p.offset as int, p.len as int) && 1 <= p.orientation <= 8
        }
}

proof fn lemma_walk_sound(
    e: Endian,
    data: Seq<u8>,
    off: int,
    n: nat,
    left: nat,
    info: TiffFacts,
)
    requires
        sound(data, info),
    ensures
        sound(data, walk(e, data, off, n, left, info).0),
    decreases left, 0int, n,
{
    if n > 0 {
        lemma_walk_sound(e, data, off, (n - 1) as nat, left, info);
        let (before, rest) = walk(e, data, off, (n - 1) as nat, left, info);
        let at = entry_pos(off, n - 1);
        if let (Some(tag), Some(v)) = (u16_at(e, data, at), entry_scalar(e, data, at)) {
            if tag != TAG_COLOR_SPACE && tag == TAG_EXIF_IFD && 0 < rest <= left {
                lemma_ifd_sound(e, data, v as int, (rest - 1) as nat, before);
            }
        }
    }
}

proof fn lemma_ifd_sound(e: Endian, data: Seq<u8>, off: int, left: nat, info: TiffFacts)
    requires
        sound(data, info),
    ensures
        sound(data, ifd(e, data, off, left, info).0),
    decreases left, 1int, 0nat,
{
    if let Some(count) = u16_at(e, data, off) {
        if count <= MAX_ENTRIES {
            lemma_walk_sound(e, data, off, whole_entries(data, off, count), left, info);
        }
    }
}

proof fn lemma_chain_sound(
    e: Endian,
    data: Seq<u8>,
    next: u32,
    seen: Seq<usize>,
    left: nat,
    info: TiffFacts,
)
    requires
        sound(data, info),
    ensures
        sound(data, chain(e, data, next, seen, left, info)),
    decreases left,
{
    if !(left == 0 || next == 0 || seen.contains(next as usize)) {
        lemma_ifd_sound(e, data, next as int, MAX_EXIF_IFDS as nat, info);
        let (after, link, _) = ifd(e, data, next as int, MAX_EXIF_IFDS as nat, info);
        if let Some(l) = link {
            lemma_chain_sound(e, data, l, seen.push(next as usize), (left - 1) as nat, after);
        }
    }
}

/// Whatever the bytes, a parsed stream has an orientation in 1..=8, and each of its previews
/// is a range of the data that starts like a JPEG: a bogus tag never hands garbage on.
pub proof fn law_parse_is_sound(data: Seq<u8>)
    ensures
        spec_parse(data) matches Some(info) ==> sound(data, info),
{
    if let Some(e) = header_endian(data) {
        if let Some(first) = u32_at(e, data, 4) {
            lemma_chain_sound(
                e,
                data,
                first,
                Seq::empty(),
                MAX_IFDS as nat,
                TiffFacts { orientation: 1, previews: Seq::empty(), color_space: None },
            );
        }
    }
}

/// No preview reaches beyond the data, is empty, or starts like anything but a JPEG; and no
/// orientation is one that EXIF does not know.
pub proof fn law_previews_lie_within_the_data(data: Seq<u8>, i: int)
    ensures
        spec_parse(data) matches Some(info) ==> {
            &&& 1 <= info.orientation <= 8
            &&& 0 <= i < info.previews.len() ==> {
                let p = info.previews[i];
                &&& p.len > 0
                &&& p.offset + p.len <= data.len()
                &&& p.offset + 3 <= data.len()
                &&& data[p.offset as int] == 0xFF
                &&& data[p.offset + 1] == 0xD8
                &&& data[p.offset + 2] == 0xFF
                &&& 1 <= p.orientation <= 8
            }
        },
{
    law_parse_is_sound(data);
}

/// Segments of interest inside a JPEG file.
#[derive(Clone, Debug, Default)]
pub struct JpegMeta {
    pub orientation: u16,
    pub color_space: Option<ColorSpace>,
    /// Reassembled ICC profile from APP2 `ICC_PROFILE` chunks, if present.
    pub icc: Option<Vec<u8>>,
}

/// The mathematical content of a [`JpegMeta`].
#[verifier::ext_equal]
pub struct JpegFacts {
    pub orientation: u16,
    pub color_space: Option<ColorSpace>,
    pub icc: Option<Seq<u8>>,
}

/// The bytes behind an optional buffer.
pub open spec fn opt_bytes(v: Option<Vec<u8>>) -> Option<Seq<u8>> {
    match v {
        Some(b) => Some(b@),
        None => None,
    }
}

impl View for JpegMeta {
    type V = JpegFacts;

    open spec fn view(&self) -> JpegFacts {
        JpegFacts {
            orientation: self.orientation,
            color_space: self.color_space,
            icc: opt_bytes(self.icc),
        }
    }
}

/// Markers that carry no length field.
pub open spec fn is_standalone(marker: u8) -> bool {
    marker == 0x01 || 0xD0 <= marker <= 0xD9
}

/// A marker segment of a JPEG file and the range of its payload.
pub struct Segment {
    pub marker: u8,
    pub start: int,
    pub end: int,
}

impl Segment {
    pub open spec fn payload(self, data: Seq<u8>) -> Seq<u8> {
        data.subrange(self.start, self.end)
    }
}

/// The marker segments from position `i` on, up to the scan (SOS) or the first segment that
/// is cut off. Stray bytes between segments are skipped.
pub open spec fn segments(data: Seq<u8>, i: int) -> Seq<Segment>
    decreases data.len() - i,
{
    if i < 0 || i + 4 > data.len() {
        Seq::empty()
    } else if data[i] != 0xFF {
        segments(data, i + 1)
    } else if is_standalone(data[i + 1]) {
        segments(data, i + 2)
    } else if data[i + 1] == 0xDA {
        Seq::empty()
    } else {
        match u16_at(Endian::Big, data, i + 2) {
            Some(len) => if len < 2 || i + 2 + len > data.len() {
                Seq::empty()
            } else {
                seq![Segment { marker: data[i + 1], start: i + 4, end: i + 2 + len }] + segments(
                    data,
                    i + 2 + len,
                )
            },
            None => Seq::empty(),
        }
    }
}

/// `Exif` followed by two zero bytes.
pub open spec fn exif_tag() -> Seq<u8> {
    seq![0x45, 0x78, 0x69, 0x66, 0, 0]
}

/// `ICC_PROFILE` followed by a zero byte.
pub open spec fn icc_tag() -> Seq<u8> {
    seq![0x49, 0x43, 0x43, 0x5F, 0x50, 0x52, 0x4F, 0x46, 0x49, 0x4C, 0x45, 0]
}

/// The TIFF stream of an APP1 `Exif` segment.
pub open spec fn exif_of(data: Seq<u8>, s: Segment) -> Option<TiffFacts> {
    let p = s.payload(data);
    if s.marker == 0xE1 && exif_tag().is_prefix_of(p) {
        spec_parse(p.subrange(6, p.len() as int))
    } else {
        None
    }
}

/// Orientation and colour space as the last readable `Exif` segment gives them.
pub open spec fn last_exif(data: Seq<u8>, segs: Seq<Segment>) -> (u16, Option<ColorSpace>)
    decreases segs.len(),
{
    if segs.len() == 0 {
        (1, None)
    } else {
        match exif_of(data, segs.last()) {
            Some(t) => (t.orientation, t.color_space),
            None => last_exif(data, segs.drop_last()),
        }
    }
}

/// An APP2 segment that holds a chunk of an ICC profile: the tag, the chunk's number, the
/// number of chunks, then the chunk.
pub open spec fn is_icc_chunk(data: Seq<u8>, s: Segment) -> bool {
    let p = s.payload(data);
    s.marker == 0xE2 && icc_tag().is_prefix_of(p) && p.len() >= 14
}

/// The chunks numbered `no`, joined in file order.
pub open spec fn icc_numbered(data: Seq<u8>, segs: Seq<Segment>, no: int) -> Seq<u8>
    decreases segs.len(),
{
    if segs.len() == 0 {
        Seq::empty()
    } else {
        let before = icc_numbered(data, segs.drop_last(), no);
        let p = segs.last().payload(data);
        if is_icc_chunk(data, segs.last()) && p[12] == no {
            before + p.subrange(14, p.len() as int)
        } else {
            before
        }
    }
}

/// The chunks numbered below `n`, joined in order of their numbers; equal numbers in file
/// order.
pub open spec fn icc_below(data: Seq<u8>, segs: Seq<Segment>, n: nat) -> Seq<u8>
    decreases n,
{
    if n == 0 {
        Seq::empty()
    } else {
        icc_below(data, segs, (n - 1) as nat) + icc_numbered(data, segs, n - 1)
    }
}

/// Some segment holds a chunk of an ICC profile.
pub open spec fn has_icc(data: Seq<u8>, segs: Seq<Segment>) -> bool {
    exists|i: int| 0 <= i < segs.len() && is_icc_chunk(data, #[trigger] segs[i])
}

/// What a JPEG's header says.
pub open spec fn spec_jpeg_meta(data: Seq<u8>) -> JpegFacts {
    if data.len() >= 2 && data[0] == 0xFF && data[1] == 0xD8 {
        let segs = segments(data, 2);
        JpegFacts {
            orientation: last_exif(data, segs).0,
            color_space: last_exif(data, segs).1,
            icc: if has_icc(data, segs) {
                Some(icc_below(data, segs, 256))
            } else {
                None
            },
        }
    } else {
        JpegFacts { orientation: 1, color_space: None, icc: None }
    }
}

/// `data` reads `tag` at `at`.
fn tag_at(data: &[u8], start: usize, end: usize, tag: &[u8]) -> (r: bool)
    requires
        start <= end <= data@.len(),
    ensures
        r == tag@.is_prefix_of(data@.subrange(start as int, end as int)),
{
    if end - start < tag.len() {
        return false;
    }
    for i in 0..tag.len()
        invariant
            start <= end <= data@.len(),
            tag@.len() <= end - start,
            forall|j: int| 0 <= j < i ==> data@[start + j] == tag@[j],
    {
        if data[start + i] != tag[i] {
            assert(data@.subrange(start as int, end as int)[i as int] != tag@[i as int]);
            return false;
        }
    }
    assert(tag@ == data@.subrange(start as int, end as int).subrange(0, tag@.len() as int));
    true
}

/// A chunk of an ICC profile: its number and the range of its bytes.
struct IccChunk {
    no: u8,
    start: usize,
    end: usize,
}

/// The ICC chunks of `segs`, in file order.
spec fn icc_chunks(data: Seq<u8>, segs: Seq<Segment>) -> Seq<IccChunk>
    decreases segs.len(),
{
    if segs.len() == 0 {
        Seq::empty()
    } else {
        let before = icc_chunks(data, segs.drop_last());
        let s = segs.last();
        if is_icc_chunk(data, s) {
            before.push(
                IccChunk {
                    no: data[s.start + 12],
                    start: (s.start + 14) as usize,
                    end: s.end as usize,
                },
            )
        } else {
            before
        }
    }
}

/// The chunks numbered `no` among `chunks`, joined.
spec fn chunks_numbered(data: Seq<u8>, chunks: Seq<IccChunk>, no: int) -> Seq<u8>
    decreases chunks.len(),
{
    if chunks.len() == 0 {
        Seq::empty()
    } else {
        let before = chunks_numbered(data, chunks.drop_last(), no);
        let c = chunks.last();
        if c.no == no {
            before + data.subrange(c.start as int, c.end as int)
        } else {
            before
        }
    }
}

/// Every segment's payload lies within the data.
spec fn segs_fit(data: Seq<u8>, segs: Seq<Segment>) -> bool {
    forall|i: int|
        0 <= i < segs.len() ==> 0 <= (#[trigger] segs[i]).start <= segs[i].end <= data.len()
}

proof fn lemma_icc_chunks(data: Seq<u8>, segs: Seq<Segment>, no: int)
    requires
        segs_fit(data, segs),
        data.len() <= usize::MAX,
    ensures
        chunks_numbered(data, icc_chunks(data, segs), no) == icc_numbered(data, segs, no),
        icc_chunks(data, segs).len() > 0 <==> has_icc(data, segs),
    decreases segs.len(),
{
    if segs.len() > 0 {
        let init = segs.drop_last();
        assert forall|i: int| 0 <= i < init.len() implies 0 <= (#[trigger] init[i]).start
            <= init[i].end <= data.len() by {
            assert(init[i] == segs[i]);
        }
        lemma_icc_chunks(data, init, no);
        let s = segs.last();
        assert(s == segs[segs.len() - 1]);
        assert(has_icc(data, segs) <==> has_icc(data, init) || is_icc_chunk(data, s)) by {
            if has_icc(data, init) {
                let i = choose|i: int| 0 <= i < init.len() && is_icc_chunk(data, #[trigger] init[i]);
                assert(segs[i] == init[i]);
            }
            if has_icc(data, segs) {
                let i = choose|i: int| 0 <= i < segs.len() && is_icc_chunk(data, #[trigger] segs[i]);
                if i < init.len() {
                    assert(init[i] == segs[i]);
                }
            }
        }
        if is_icc_chunk(data, s) {
            let all = icc_chunks(data, segs);
            let p = s.payload(data);
            assert(all.drop_last() == icc_chunks(data, init));
            assert(p.subrange(14, p.len() as int) == data.subrange(s.start + 14, s.end));
        }
    }
}

proof fn lemma_last_exif(data: Seq<u8>, segs: Seq<Segment>)
    ensures
        1 <= last_exif(data, segs).0 <= 8,
    decreases segs.len(),
{
    if segs.len() > 0 {
        let p = segs.last().payload(data);
        law_parse_is_sound(p.subrange(6, p.len() as int));
        lemma_last_exif(data, segs.drop_last());
    }
}

/// Whatever the bytes, the orientation read from a JPEG's header is in 1..=8.
pub proof fn law_jpeg_orientation(data: Seq<u8>)
    ensures
        1 <= spec_jpeg_meta(data).orientation <= 8,
{
    lemma_last_exif(data, segments(data, 2));
}

/// Scan a JPEG's marker segments for EXIF (APP1) and ICC (APP2).
///
/// Only the header is inspected; scanning stops at SOS, so this stays cheap even
/// when handed a whole 11 MB file.
pub fn jpeg_meta(data: &[u8]) -> (meta: JpegMeta)
    ensures
        meta@ == spec_jpeg_meta(data@),
{
    let mut meta = JpegMeta { orientation: 1, color_space: None, icc: None };
    if data.len() < 2 || data[0] != 0xFF || data[1] != 0xD8 {
        return meta;
    }
    let len: usize = data.len();
    let exif: [u8; 6] = [0x45, 0x78, 0x69, 0x66, 0, 0];
    let icc: [u8; 12] = [0x49, 0x43, 0x43, 0x5F, 0x50, 0x52, 0x4F, 0x46, 0x49, 0x4C, 0x45, 0];
    assert(exif@ == exif_tag());
    assert(icc@ == icc_tag());
    // ICC profiles are split across numbered APP2 chunks that must be joined in order,
    // which need not be their order on disk.
    let mut chunks: Vec<IccChunk> = Vec::new();
    let mut i: usize = 2;
    let ghost mut done: Seq<Segment> = Seq::empty();
    assert(done + segments(data@, 2) == segments(data@, 2));
    while len - i >= 4
        invariant_except_break
            done + segments(data@, i as int) == segments(data@, 2),
        invariant
            len == data@.len(),
            2 <= i <= len,
            exif@ == exif_tag(),
            icc@ == icc_tag(),
            segs_fit(data@, done),
            chunks@ == icc_chunks(data@, done),
            (meta.orientation, meta.color_space) == last_exif(data@, done),
            meta.icc is None,
            forall|j: int|
                0 <= j < chunks@.len() ==> (#[trigger] chunks@[j]).start <= chunks@[j].end <= len,
        ensures
            done == segments(data@, 2),
        decreases len - i,
    {
        if data[i] != 0xFF {
            i = i + 1;
            continue ;
        }
        let marker = data[i + 1];
        if marker == 0x01 || (0xD0 <= marker && marker <= 0xD9) {
            i = i + 2;
            continue ;
        }
        // SOS: pixel data follows, nothing more to find.
        if marker == 0xDA {
            assert(done + Seq::<Segment>::empty() == done);
            break;
        }
        let size: usize = match Endian::Big.u16_from(data, i + 2) {
            Some(v) => v as usize,
            None => 0,
        };
        if size < 2 || size > len - i - 2 {
            assert(done + Seq::<Segment>::empty() == done);
            break;
        }
        let (start, end): (usize, usize) = (i + 4, i + 2 + size);
        let ghost seg = Segment { marker, start: start as int, end: end as int };
        let ghost before = done;
        proof {
            assert(before + (seq![seg] + segments(data@, end as int)) == before.push(seg)
                + segments(data@, end as int));
            done = before.push(seg);
            assert(done.drop_last() == before);
            assert(segs_fit(data@, done));
        }
        if marker == 0xE1 && tag_at(data, start, end, &exif) {
            let stream = slice_subrange(data, start + 6, end);
            assert(stream@ == seg.payload(data@).subrange(6, seg.payload(data@).len() as int));
            if let Some(t) = parse(stream) {
                meta.orientation = t.orientation;
                meta.color_space = t.color_space;
            }
        } else if marker == 0xE2 && tag_at(data, start, end, &icc) {
            // Layout: "ICC_PROFILE\0" + chunk_no + chunk_total + payload.
            if end - start >= 14 {
                chunks.push(IccChunk { no: data[start + 12], start: start + 14, end });
            }
        }
        i = end;
    }
    if chunks.len() > 0 {
        let mut profile: Vec<u8> = Vec::new();
        for no in 0..256usize
            invariant
                profile@ == icc_below(data@, done, no as nat),
                len == data@.len(),
                segs_fit(data@, done),
                chunks@ == icc_chunks(data@, done),
                forall|j: int|
                    0 <= j < chunks@.len() ==> (#[trigger] chunks@[j]).start <= chunks@[j].end
                        <= len,
        {
            let ghost below = profile@;
            assert(below + Seq::<u8>::empty() == below);
            for k in 0..chunks.len()
                invariant
                    no < 256,
                    profile@ == below + chunks_numbered(data@, chunks@.take(k as int), no as int),
                    len == data@.len(),
                    forall|j: int|
                        0 <= j < chunks@.len() ==> (#[trigger] chunks@[j]).start <= chunks@[j].end
                            <= len,
            {
                assert(chunks@.take(k as int + 1).drop_last() == chunks@.take(k as int));
                assert(chunks@.take(k as int + 1).last() == chunks@[k as int]);
                if chunks[k].no as usize == no {
                    let part = slice_subrange(data, chunks[k].start, chunks[k].end);
                    profile.extend_from_slice(part);
                }
            }
            assert(chunks@.take(chunks@.len() as int) == chunks@);
            proof {
                lemma_icc_chunks(data@, done, no as int);
            }
        }
        meta.icc = Some(profile);
    }
    proof {
        lemma_icc_chunks(data@, done, 0);
    }
    meta
}

} // verus!

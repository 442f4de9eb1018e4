//! Turning a file's bytes into RGBA8 pixels ready for GPU upload.
//!
//! Two decoders are kept deliberately, because they have complementary strengths and
//! the choice is load-dependent:
//!
//! * [`Decoder::Zune`] -- no scaling, but emits RGBA8 directly, so there is no
//!   conversion pass before upload.
//! * [`Decoder::JpegDecoder`] -- supports DCT-domain scaling (1/2, 1/4, 1/8), which
//!   cuts IDCT work roughly by the square of the factor, but emits RGB8.
use vstd::prelude::*;
use vstd::slice::slice_subrange;
use crate::frame;
use crate::frame::Hurdle;
use crate::tiff;
use crate::tiff::ColorSpace;

verus! {

/// The bytes of each buffer of a list.
pub open spec fn contents(bufs: Seq<Vec<u8>>) -> Seq<Seq<u8>> {
    Seq::new(bufs.len(), |i: int| bufs[i]@)
}

/// Recycles the large RGBA buffers decoded images live in.
///
/// A 25.6 MP frame is 102 MB, well above any allocator's mmap threshold, so a fresh one
/// is a new mapping plus ~25k page faults as the decoder writes it. Writing into a buffer
/// that is already resident costs a fraction of that, and every frame in a shoot is the
/// same size, so reuse is essentially always possible.
///
/// Best-effort: a buffer only comes back if the renderer finishes with it (the common
/// path). Images discarded by the ring simply free theirs.
pub struct BufferPool {
    free: Vec<Vec<u8>>,
    /// Spare buffers held in reserve. Each is ~102 MB, so this is the memory bound.
    limit: usize,
}

impl View for BufferPool {
    type V = Seq<Seq<u8>>;

    /// The bytes of the spare buffers, the one handed out next last.
    closed spec fn view(&self) -> Seq<Seq<u8>> {
        contents(self.free@)
    }
}

/// `Vec::capacity`: a vector always has room for what it holds. How much more, the
/// allocator decides.
#[verifier::external_body]
fn capacity(buf: &Vec<u8>) -> (n: usize)
    ensures
        n >= buf@.len(),
{
    buf.capacity()
}

/// The spare buffers of a pool that holds `limit` of them at most, once a buffer with the bytes
/// `buf` and room for `capacity` was handed back: it is kept unless the pool is full or the
/// buffer has no allocation.
pub open spec fn given(spares: Seq<Seq<u8>>, limit: nat, buf: Seq<u8>, capacity: nat) -> Seq<
    Seq<u8>,
> {
    if capacity == 0 || spares.len() >= limit {
        spares
    } else {
        spares.push(buf)
    }
}

/// A pool never holds more than its limit. Handing a buffer back adds one spare, except to a
/// full pool or when there is no allocation to keep: then nothing is added.
pub proof fn law_pool_is_bounded(spares: Seq<Seq<u8>>, limit: nat, buf: Seq<u8>, capacity: nat)
    requires
        spares.len() <= limit,
    ensures
        given(spares, limit, buf, capacity).len() <= limit,
        given(spares, limit, buf, capacity).len() == (if capacity == 0 || spares.len() == limit {
            spares.len()
        } else {
            spares.len() + 1
        }),
{
}

impl BufferPool {
    /// How many spare buffers are kept at most.
    pub closed spec fn spec_limit(&self) -> usize {
        self.limit
    }

    /// No more is held in reserve than the limit allows.
    #[verifier::type_invariant]
    spec fn bounded(&self) -> bool {
        self.free@.len() <= self.limit
    }

    pub fn new(limit: usize) -> (pool: Self)
        ensures
            pool@ == Seq::<Seq<u8>>::empty(),
            pool.spec_limit() == limit,
    {
        let pool = Self { free: Vec::new(), limit };
        assert(contents(pool.free@) == Seq::<Seq<u8>>::empty());
        pool
    }

    /// A spare buffer, or an empty one when the pool has none.
    ///
    /// Returned exactly as it came back, at its previous length: [`fit`] then finds it
    /// already the right size and does nothing. Clearing or pre-sizing here would
    /// memset 102 MB and hand most of the saving straight back.
    pub fn take(&mut self) -> (buf: Vec<u8>)
        ensures
            final(self).spec_limit() == old(self).spec_limit(),
            old(self)@.len() == 0 ==> buf@ == Seq::<u8>::empty() && final(self)@ == old(self)@,
            old(self)@.len() > 0 ==> buf@ == old(self)@.last() && final(self)@
                == old(self)@.drop_last(),
    {
        proof {
            use_type_invariant(&*self);
        }
        let ghost before = self.free@;
        let mut free: Vec<Vec<u8>> = Vec::new();
        std::mem::swap(&mut free, &mut self.free);
        let last = free.pop();
        self.free = free;
        proof {
            if before.len() > 0 {
                assert(contents(self.free@) == contents(before).drop_last());
            } else {
                assert(contents(self.free@) == contents(before));
            }
        }
        match last {
            Some(buf) => buf,
            None => Vec::new(),
        }
    }

    /// Hand a buffer back. Dropped if the pool is already full, or if the buffer has no
    /// allocation to keep; one that holds bytes always has.
    pub fn give(&mut self, buf: Vec<u8>)
        ensures
            final(self).spec_limit() == old(self).spec_limit(),
            exists|c: usize|
                c >= buf@.len() && final(self)@ == #[trigger] given(
                    old(self)@,
                    old(self).spec_limit() as nat,
                    buf@,
                    c as nat,
                ),
            old(self)@.len() < old(self).spec_limit() && buf@.len() > 0 ==> final(self)@
                == old(self)@.push(buf@),
    {
        let room: usize = capacity(&buf);
        self.give_within(buf, room);
    }

    /// As [`BufferPool::give`], for a buffer whose allocation has room for `capacity` bytes.
    pub fn give_within(&mut self, buf: Vec<u8>, capacity: usize)
        ensures
            final(self).spec_limit() == old(self).spec_limit(),
            final(self)@ == given(
                old(self)@,
                old(self).spec_limit() as nat,
                buf@,
                capacity as nat,
            ),
    {
        proof {
            use_type_invariant(&*self);
        }
        let ghost before = self.free@;
        let ghost bytes = buf@;
        if capacity == 0 {
            return;
        }
        if self.free.len() < self.limit {
            let mut free: Vec<Vec<u8>> = Vec::new();
            std::mem::swap(&mut free, &mut self.free);
            free.push(buf);
            self.free = free;
            assert(contents(self.free@) == contents(before).push(bytes));
        }
    }

    /// Spare buffers currently held.
    pub fn spare(&self) -> (n: usize)
        ensures
            n == self@.len(),
            n <= self.spec_limit(),
    {
        proof {
            use_type_invariant(self);
        }
        self.free.len()
    }
}

/// `n` zero bytes.
pub open spec fn zeros(n: nat) -> Seq<u8> {
    Seq::new(n, |i: int| 0u8)
}

/// `buf` cut off, or filled up with zeros, at `len` bytes.
pub open spec fn resized(buf: Seq<u8>, len: nat) -> Seq<u8> {
    if len <= buf.len() {
        buf.take(len as int)
    } else {
        buf + zeros((len - buf.len()) as nat)
    }
}

/// What a buffer with the bytes `buf` and room for `capacity` holds once it is made `len` bytes
/// long: itself when it already is; zeros when it has not the room; else itself, resized.
pub open spec fn fitted_within(buf: Seq<u8>, len: nat, capacity: nat) -> Seq<u8> {
    if buf.len() == len {
        buf
    } else if capacity < len {
        zeros(len)
    } else {
        resized(buf, len)
    }
}

/// What a buffer with the bytes `buf` may hold once it is made `len` bytes long: itself when
/// it already is, its head when it is longer. A shorter one is filled up with zeros if its
/// allocation has the room, and replaced by zeros if not.
pub open spec fn fitted(buf: Seq<u8>, len: nat, out: Seq<u8>) -> bool {
    if len <= buf.len() {
        out == buf.take(len as int)
    } else {
        out == zeros(len) || out == buf + zeros((len - buf.len()) as nat)
    }
}

/// Make `buf` exactly `len` bytes, reusing its allocation when it can.
///
/// The three cases differ in cost by two orders of magnitude, which is the whole point
/// of the pool: an already-correct buffer is free, a too-small one is replaced by a
/// fresh zeroed mapping (the OS supplies the zeros, so there is no memset), and only
/// the in-between case pays to zero the difference.
pub fn fit(buf: Vec<u8>, len: usize) -> (out: Vec<u8>)
    ensures
        out@.len() == len,
        buf@.len() == len ==> out@ == buf@,
        fitted(buf@, len as nat, out@),
        exists|c: usize|
            c >= buf@.len() && out@ == #[trigger] fitted_within(buf@, len as nat, c as nat),
{
    assert(buf@.take(buf@.len() as int) == buf@);
    let room: usize = capacity(&buf);
    fit_within(buf, len, room)
}

/// As [`fit`], for a buffer whose allocation has room for `capacity` bytes.
pub fn fit_within(buf: Vec<u8>, len: usize, capacity: usize) -> (out: Vec<u8>)
    ensures
        out@ == fitted_within(buf@, len as nat, capacity as nat),
{
    if buf.len() == len {
        return buf;
    }
    if capacity < len {
        let out = vec![0u8; len];
        assert(out@ == zeros(len as nat));
        return out;
    }
    let mut out = buf;
    out.resize(len, 0);
    assert(out@ == resized(buf@, len as nat));
    out
}

/// Decoded pixels plus everything the renderer needs to display them correctly.
pub struct Image {
    pub width: u32,
    pub height: u32,
    /// Tightly packed RGBA8, `width * height * 4` bytes.
    pub rgba: Vec<u8>,
    /// EXIF orientation 1..=8, applied by the renderer rather than by rotating pixels.
    pub orientation: u16,
    /// Embedded ICC profile, when the file carried one.
    pub icc: Option<Vec<u8>>,
    /// EXIF ColorSpace tag, used when there is no embedded profile.
    pub color_space: Option<ColorSpace>,
    /// Denominator actually achieved relative to native resolution (1, 2, 4, 8).
    /// The renderer needs this to know when a zoom-in requires a full-res reload.
    pub scale_denom: u32,
    /// Native dimensions before any scaling, for the same reason.
    pub native_width: u32,
    pub native_height: u32,
}

/// The mathematical content of an [`Image`].
#[verifier::ext_equal]
pub struct Picture {
    pub width: u32,
    pub height: u32,
    pub rgba: Seq<u8>,
    pub orientation: u16,
    pub icc: Option<Seq<u8>>,
    pub color_space: Option<ColorSpace>,
    pub scale_denom: u32,
    pub native_width: u32,
    pub native_height: u32,
}

impl View for Image {
    type V = Picture;

    open spec fn view(&self) -> Picture {
        Picture {
            width: self.width,
            height: self.height,
            rgba: self.rgba@,
            orientation: self.orientation,
            icc: tiff::opt_bytes(self.icc),
            color_space: self.color_space,
            scale_denom: self.scale_denom,
            native_width: self.native_width,
            native_height: self.native_height,
        }
    }
}

#[derive(Debug)]
pub enum Error {
    /// No decodable image found -- not a JPEG, and no embedded preview either.
    NoImage,
    Decode(String),
}

/// The mathematical content of an [`Error`].
pub enum Failure {
    NoImage,
    Decode(Seq<char>),
}

impl View for Error {
    type V = Failure;

    open spec fn view(&self) -> Failure {
        match self {
            Error::NoImage => Failure::NoImage,
            Error::Decode(m) => Failure::Decode(m@),
        }
    }
}

impl Error {
    /// The error in words.
    pub fn message(&self) -> (s: String)
        ensures
            s@ == (match self@ {
                Failure::NoImage => "no decodable image found"@,
                Failure::Decode(m) => "decode failed: "@ + m,
            }),
    {
        match self {
            Error::NoImage => String::from_str("no decodable image found"),
            Error::Decode(m) => {
                let mut s = String::from_str("decode failed: ");
                s.append(m.as_str());
                s
            },
        }
    }
}

/// The content of a decoding result.
pub open spec fn outcome(r: Result<Image, Error>) -> Result<Picture, Failure> {
    match r {
        Ok(image) => Ok(image@),
        Err(e) => Err(e@),
    }
}

#[derive(Clone, Copy, PartialEq, Eq, Debug, Structural)]
pub enum Decoder {
    Zune,
    JpegDecoder,
}

/// The JPEG bitstream to decode, located within a file's bytes.
///
/// For a plain JPEG this is the whole file. For an ARW it is the embedded
/// full-resolution preview, which avoids demosaicing entirely.
pub struct Located<'a> {
    pub jpeg: &'a [u8],
    pub orientation: u16,
    pub color_space: Option<ColorSpace>,
    pub icc: Option<Vec<u8>>,
    /// True when the bytes came from a RAW container's preview.
    pub from_raw: bool,
}

/// The mathematical content of a [`Located`].
#[verifier::ext_equal]
pub struct Found {
    pub jpeg: Seq<u8>,
    pub orientation: u16,
    pub color_space: Option<ColorSpace>,
    pub icc: Option<Seq<u8>>,
    pub from_raw: bool,
}

impl<'a> View for Located<'a> {
    type V = Found;

    open spec fn view(&self) -> Found {
        Found {
            jpeg: self.jpeg@,
            orientation: self.orientation,
            color_space: self.color_space,
            icc: tiff::opt_bytes(self.icc),
            from_raw: self.from_raw,
        }
    }
}

/// The bytes start like a JPEG.
pub open spec fn looks_like_jpeg(data: Seq<u8>) -> bool {
    data.len() >= 3 && data[0] == 0xFF && data[1] == 0xD8 && data[2] == 0xFF
}

/// The orientation of a RAW file's preview: the preview's own IFD first, then the file's, then
/// what the preview's JPEG header says.
pub open spec fn raw_orientation(preview: u16, file: u16, jpeg: u16) -> u16 {
    if 1 < preview <= 8 {
        preview
    } else if file != 1 {
        file
    } else {
        jpeg
    }
}

/// The JPEG bitstream inside `data`: `data` itself when it is a JPEG, the largest preview when
/// it is a TIFF-based RAW, nothing otherwise.
pub open spec fn spec_locate(data: Seq<u8>) -> Option<Found> {
    if looks_like_jpeg(data) {
        let meta = tiff::spec_jpeg_meta(data);
        Some(
            Found {
                jpeg: data,
                orientation: meta.orientation,
                color_space: meta.color_space,
                icc: meta.icc,
                from_raw: false,
            },
        )
    } else {
        match tiff::spec_parse(data) {
            None => None,
            Some(info) => match tiff::largest(info.previews) {
                None => None,
                Some(p) => {
                    let jpeg = data.subrange(p.offset as int, p.offset + p.len);
                    let meta = tiff::spec_jpeg_meta(jpeg);
                    Some(
                        Found {
                            jpeg,
                            orientation: raw_orientation(
                                p.orientation,
                                info.orientation,
                                meta.orientation,
                            ),
                            color_space: if info.color_space is Some {
                                info.color_space
                            } else {
                                meta.color_space
                            },
                            icc: meta.icc,
                            from_raw: true,
                        },
                    )
                },
            },
        }
    }
}

/// Find the JPEG bitstream inside `data`, which may be a JPEG or a TIFF-based RAW.
pub fn locate<'a>(data: &'a [u8]) -> (r: Result<Located<'a>, Error>)
    ensures
        match spec_locate(data@) {
            Some(found) => r matches Ok(loc) && loc@ == found,
            None => r == Err::<Located<'a>, Error>(Error::NoImage),
        },
{
    // JPEG: use it directly, reading orientation and ICC from its own markers.
    if data.len() >= 3 && data[0] == 0xFF && data[1] == 0xD8 && data[2] == 0xFF {
        let meta = tiff::jpeg_meta(data);
        return Ok(
            Located {
                jpeg: data,
                orientation: meta.orientation,
                color_space: meta.color_space,
                icc: meta.icc,
                from_raw: false,
            },
        );
    }
    // TIFF-based RAW: take the largest embedded preview.
    let info = match tiff::parse(data) {
        Some(info) => info,
        None => {
            return Err(Error::NoImage);
        },
    };
    let preview = match info.largest_preview() {
        Some(p) => p,
        None => {
            return Err(Error::NoImage);
        },
    };
    proof {
        tiff::law_parse_is_sound(data@);
    }
    assert(data.len() == data@.len());
    let jpeg = slice_subrange(data, preview.offset, preview.offset + preview.len);
    // The preview is itself a JPEG and may carry its own ICC profile; prefer the
    // container's orientation, which is what other viewers honour.
    let meta = tiff::jpeg_meta(jpeg);
    let orientation: u16 = if 1 < preview.orientation && preview.orientation <= 8 {
        preview.orientation
    } else if info.orientation != 1 {
        info.orientation
    } else {
        meta.orientation
    };
    let color_space = match info.color_space {
        Some(c) => Some(c),
        None => meta.color_space,
    };
    Ok(Located { jpeg, orientation, color_space, icc: meta.icc, from_raw: true })
}

/// Whatever the bytes, what is found is part of them, starts like a JPEG, and comes with an
/// orientation in 1..=8.
pub proof fn law_located_is_a_jpeg(data: Seq<u8>)
    ensures
        spec_locate(data) matches Some(found) ==> {
            &&& found.jpeg.len() >= 3 ==> looks_like_jpeg(found.jpeg)
            &&& found.jpeg.len() > 0
            &&& 1 <= found.orientation <= 8
            &&& exists|i: int, j: int| 0 <= i <= j <= data.len() && found.jpeg == data.subrange(i, j)
        },
{
    tiff::law_parse_is_sound(data);
    if let Some(found) = spec_locate(data) {
        tiff::law_jpeg_orientation(found.jpeg);
        if let Some(info) = tiff::spec_parse(data) {
            tiff::law_largest_ranks_highest(info.previews);
        }
        if looks_like_jpeg(data) {
            assert(data.subrange(0, data.len() as int) == data);
        }
    }
}

/// Any SOF flavour: baseline, extended sequential, or progressive.
pub open spec fn is_sof(marker: u8) -> bool {
    0xC0 <= marker <= 0xC3 || 0xC5 <= marker <= 0xC7 || 0xC9 <= marker <= 0xCB || 0xCD <= marker
        <= 0xCF
}

/// The (width, height) that the first SOF segment from position `i` on declares, if it comes
/// before the scan and is not cut off.
pub open spec fn dims_from(data: Seq<u8>, i: int) -> Option<(u32, u32)>
    decreases data.len() - i,
{
    if i < 0 || i + 4 > data.len() {
        None
    } else if data[i] != 0xFF {
        dims_from(data, i + 1)
    } else if tiff::is_standalone(data[i + 1]) {
        dims_from(data, i + 2)
    } else {
        match tiff::u16_at(tiff::Endian::Big, data, i + 2) {
            None => None,
            Some(len) => if is_sof(data[i + 1]) {
                if len >= 7 && i + 2 + len <= data.len() {
                    match (
                        tiff::u16_at(tiff::Endian::Big, data, i + 7),
                        tiff::u16_at(tiff::Endian::Big, data, i + 5),
                    ) {
                        (Some(w), Some(h)) => Some((w as u32, h as u32)),
                        _ => None,
                    }
                } else {
                    None
                }
            } else if data[i + 1] == 0xDA || i + 2 + len > data.len() {
                None
            } else {
                dims_from(data, i + 2 + len)
            },
        }
    }
}

proof fn lemma_dims_bound(data: Seq<u8>, i: int)
    ensures
        dims_from(data, i) matches Some(d) ==> d.0 <= 0xFFFF && d.1 <= 0xFFFF,
    decreases data.len() - i,
{
    if !(i < 0 || i + 4 > data.len()) {
        if data[i] != 0xFF {
            lemma_dims_bound(data, i + 1);
        } else if tiff::is_standalone(data[i + 1]) {
            lemma_dims_bound(data, i + 2);
        } else if let Some(len) = tiff::u16_at(tiff::Endian::Big, data, i + 2) {
            if !is_sof(data[i + 1]) && data[i + 1] != 0xDA && i + 2 + len <= data.len() {
                lemma_dims_bound(data, i + 2 + len);
            }
        }
    }
}

/// Read SOF dimensions without decoding pixels.
pub fn jpeg_dimensions(data: &[u8]) -> (r: Option<(u32, u32)>)
    ensures
        r == dims_from(data@, 2),
        r matches Some(d) ==> d.0 <= 0xFFFF && d.1 <= 0xFFFF,
{
    proof {
        lemma_dims_bound(data@, 2);
    }
    let total: usize = data.len();
    if total < 2 {
        return None;
    }
    let mut i: usize = 2;
    while total - i >= 4
        invariant
            total == data@.len(),
            2 <= i <= total,
            dims_from(data@, i as int) == dims_from(data@, 2),
            dims_from(data@, 2) matches Some(d) ==> d.0 <= 0xFFFF && d.1 <= 0xFFFF,
        decreases total - i,
    {
        if data[i] != 0xFF {
            i = i + 1;
            continue ;
        }
        let marker = data[i + 1];
        if marker == 0x01 || (0xD0 <= marker && marker <= 0xD9) {
            i = i + 2;
            continue ;
        }
        let len: usize = match tiff::Endian::Big.u16_from(data, i + 2) {
            Some(v) => v as usize,
            None => {
                return None;
            },
        };
        if (0xC0 <= marker && marker <= 0xC3) || (0xC5 <= marker && marker <= 0xC7) || (0xC9
            <= marker && marker <= 0xCB) || (0xCD <= marker && marker <= 0xCF) {
            if len < 7 || len > total - i - 2 {
                return None;
            }
            return match (
                tiff::Endian::Big.u16_from(data, i + 7),
                tiff::Endian::Big.u16_from(data, i + 5),
            ) {
                (Some(w), Some(h)) => Some((w as u32, h as u32)),
                _ => None,
            };
        }
        if marker == 0xDA || len > total - i - 2 {
            return None;
        }
        i = i + 2 + len;
    }
    None
}

/// The native dimensions and the orientation that a file declares.
pub open spec fn spec_probe(data: Seq<u8>) -> Option<(u32, u32, u16)> {
    match spec_locate(data) {
        None => None,
        Some(found) => match dims_from(found.jpeg, 2) {
            None => None,
            Some(d) => Some((d.0, d.1, found.orientation)),
        },
    }
}

/// Native dimensions and orientation of a file, without decoding it.
///
/// The renderer needs this *before* the pixels arrive: otherwise the view is fitted to a
/// placeholder size and visibly jumps when the real image lands.
pub fn probe_bytes(data: &[u8]) -> (r: Option<(u32, u32, u16)>)
    ensures
        r == spec_probe(data@),
{
    match locate(data) {
        Ok(loc) => match jpeg_dimensions(loc.jpeg) {
            Some(d) => Some((d.0, d.1, loc.orientation)),
            None => None,
        },
        Err(_) => None,
    }
}

/// The picture still covers the target when it is reduced by `denom`.
pub open spec fn covers(native: (u32, u32), denom: u32, target: (u32, u32)) -> bool {
    native.0 / denom >= target.0 && native.1 / denom >= target.1
}

/// The largest of 1, 2, 4 and 8 that leaves the target covered; 1 when even that does not, or
/// when the target is degenerate.
pub open spec fn spec_scale_denominator(native: (u32, u32), target: (u32, u32)) -> u32 {
    if target.0 == 0 || target.1 == 0 || !covers(native, 2, target) {
        1
    } else if !covers(native, 4, target) {
        2
    } else if !covers(native, 8, target) {
        4
    } else {
        8
    }
}

/// Largest power-of-two reduction whose result still covers `target` in both axes.
///
/// Returns 1 when no reduction applies. Capped at 8, the most the DCT can do.
pub fn scale_denominator(native_w: u32, native_h: u32, target_w: u32, target_h: u32) -> (denom: u32)
    ensures
        denom == spec_scale_denominator((native_w, native_h), (target_w, target_h)),
{
    if target_w == 0 || target_h == 0 {
        return 1;
    }
    let mut denom: u32 = 1;
    while denom < 8
        invariant_except_break
            denom > 1 ==> covers((native_w, native_h), 2, (target_w, target_h)),
            denom > 2 ==> covers((native_w, native_h), 4, (target_w, target_h)),
        invariant
            denom == 1 || denom == 2 || denom == 4 || denom == 8,
            denom > 4 ==> covers((native_w, native_h), 8, (target_w, target_h)),
            target_w > 0 && target_h > 0,
        ensures
            denom == spec_scale_denominator((native_w, native_h), (target_w, target_h)),
        decreases 8 - denom,
    {
        let next: u32 = denom * 2;
        if native_w / next < target_w || native_h / next < target_h {
            break;
        }
        denom = next;
    }
    denom
}

/// A reduction never undershoots the target, so an image is never enlarged to fill the
/// viewport; and no larger reduction that the DCT can do would be as good.
pub proof fn law_scale_never_undershoots(native: (u32, u32), target: (u32, u32), other: u32)
    requires
        target.0 > 0,
        target.1 > 0,
        other == 2 || other == 4 || other == 8,
    ensures
        ({
            let d = spec_scale_denominator(native, target);
            &&& d == 1 || d == 2 || d == 4 || d == 8
            &&& d > 1 ==> covers(native, d, target)
            &&& covers(native, other, target) ==> other <= d
        }),
{
    assert(native.0 / 8u32 <= native.0 / 4u32 <= native.0 / 2u32);
    assert(native.1 / 8u32 <= native.1 / 4u32 <= native.1 / 2u32);
    if other == 2 {
        assert(covers(native, 2, target) == covers(native, other, target));
    } else if other == 4 {
        assert(covers(native, 4, target) == covers(native, other, target));
    } else {
        assert(covers(native, 8, target) == covers(native, other, target));
    }
}

/// RGB pixels widened to RGBA: each triple gains an opaque alpha. Bytes after the last whole
/// triple are dropped.
pub open spec fn spec_rgb_to_rgba(rgb: Seq<u8>) -> Seq<u8> {
    Seq::new(
        (rgb.len() / 3 * 4) as nat,
        |i: int|
            if i % 4 == 3 {
                0xFFu8
            } else {
                rgb[i / 4 * 3 + i % 4]
            },
    )
}

pub fn rgb_to_rgba(rgb: &[u8]) -> (out: Vec<u8>)
    ensures
        out@ == spec_rgb_to_rgba(rgb@),
{
    let n: usize = rgb.len() / 3;
    let mut out: Vec<u8> = Vec::new();
    for k in 0..n
        invariant
            n == rgb@.len() / 3,
            out@.len() == 4 * k,
            forall|i: int|
                0 <= i < out@.len() ==> #[trigger] out@[i] == (if i % 4 == 3 {
                    0xFFu8
                } else {
                    rgb@[i / 4 * 3 + i % 4]
                }),
    {
        assert(rgb.len() == rgb@.len());
        out.push(rgb[k * 3]);
        out.push(rgb[k * 3 + 1]);
        out.push(rgb[k * 3 + 2]);
        out.push(0xFF);
    }
    assert(out@ == spec_rgb_to_rgba(rgb@));
    out
}

/// Grey pixels widened to RGBA: the luma three times, then an opaque alpha.
pub open spec fn spec_gray_to_rgba(gray: Seq<u8>) -> Seq<u8> {
    Seq::new(
        (gray.len() * 4) as nat,
        |i: int|
            if i % 4 == 3 {
                0xFFu8
            } else {
                gray[i / 4]
            },
    )
}

pub fn gray_to_rgba(gray: &[u8]) -> (out: Vec<u8>)
    ensures
        out@ == spec_gray_to_rgba(gray@),
{
    let mut out: Vec<u8> = Vec::new();
    for k in 0..gray.len()
        invariant
            out@.len() == 4 * k,
            forall|i: int|
                0 <= i < out@.len() ==> #[trigger] out@[i] == (if i % 4 == 3 {
                    0xFFu8
                } else {
                    gray@[i / 4]
                }),
    {
        let g = gray[k];
        out.push(g);
        out.push(g);
        out.push(g);
        out.push(0xFF);
    }
    assert(out@ == spec_gray_to_rgba(gray@));
    out
}

/// A frame that zune-jpeg decoded into a buffer: its size, as far as it is known, and the
/// profile the file carried.
pub struct ZuneFrame {
    pub size: Option<(u16, u16)>,
    pub icc: Option<Vec<u8>>,
}

/// What zune-jpeg reports of the headers of `jpeg` when asked for RGBA: how many bytes the
/// decoded frame takes, or what is wrong with them.
pub uninterp spec fn zune_header(jpeg: Seq<u8>) -> Result<Option<usize>, Seq<char>>;

/// What zune-jpeg makes of `jpeg` when it decodes to RGBA into a buffer that holds `buf`: the
/// frame's size and profile, or what is wrong, and what the buffer holds afterwards. It is the
/// same on every machine: the inverse transforms, the upsamplers and the colour conversion for
/// AVX2 and for NEON compute in the same integers as the portable ones, wrapping and saturating
/// at the same places, so that they differ in speed alone.
pub uninterp spec fn zune_decoded(jpeg: Seq<u8>, buf: Seq<u8>) -> (
    Result<(Option<(u16, u16)>, Option<Seq<u8>>), Seq<char>>,
    Seq<u8>,
);

/// `zune_jpeg::JpegDecoder::decode_headers` and `output_buffer_size` on a decoder for RGBA
/// output. Both depend on the bytes alone; the result is named, not spelled out.
#[verifier::external_body]
fn zune_read_headers(jpeg: &[u8]) -> (r: Result<Option<usize>, String>)
    ensures
        (match r {
            Ok(n) => Ok(n),
            Err(m) => Err(m@),
        }) == zune_header(jpeg@),
{
    let opts = zune_core::options::DecoderOptions::default()
        .jpeg_set_out_colorspace(zune_core::colorspace::ColorSpace::RGBA);
    let stream = zune_core::bytestream::ZCursor::new(jpeg);
    let mut dec = zune_jpeg::JpegDecoder::new_with_options(stream, opts);
    match dec.decode_headers() {
        Ok(()) => Ok(dec.output_buffer_size()),
        Err(e) => Err(e.to_string()),
    }
}

/// The content of what a zune-jpeg call gave back.
pub open spec fn zune_outcome(r: Result<ZuneFrame, String>) -> Result<
    (Option<(u16, u16)>, Option<Seq<u8>>),
    Seq<char>,
> {
    match r {
        Ok(f) => Ok((f.size, tiff::opt_bytes(f.icc))),
        Err(m) => Err(m@),
    }
}

/// zune-jpeg overwrites each of the `n` bytes of the buffer it decodes `jpeg` into: the outcome
/// is the same from zeros as from ones, which a byte left alone would not be.
pub open spec fn overwrites(jpeg: Seq<u8>, n: nat) -> bool {
    zune_decoded(jpeg, zeros(n)).1 == zune_decoded(jpeg, ones(n)).1
}

/// `n` bytes of ones.
pub open spec fn ones(n: nat) -> Seq<u8> {
    Seq::new(n, |i: int| 0xFFu8)
}

/// `zune_jpeg::JpegDecoder::decode_into`, then `info` and `icc_profile`, on a decoder for RGBA
/// output. The result depends on the bytes and, where pixels are left unwritten (in a damaged
/// file, or in one of two components or of four inks), on what the buffer held; it is named, not
/// spelled out. The decoder writes into the buffer's bytes, never reads them, and cannot change
/// its length: so what it says of the frame is the same whatever the buffer held, and so are the
/// pixels when all are written. After a successful decode the size is known, and the length that
/// the headers asked for is four bytes for each of its pixels: the output colour space stays the
/// one that was set, and a second frame header is an error.
///
/// The buffer must be as long as the headers ask for, and there must be no hurdle. Without that
/// the decoder panics in two ways. A progressive frame of one or two components whose Adobe
/// segment asks for the transform of four is taken for one of three, and a component that it has
/// not is looked up. And a frame that is progressive, or not coded in one scan, is upsampled in
/// scratch space as wide as the rows of its first component, which the upsampler checks; in the
/// latter case the blocks of a component that is read before a wider one are laid out in rows
/// that are too long for the buffer. Arithmetic on the coded data wraps, as it does where overflow
/// checks are compiled out; whether it would trip such a check cannot be told without decoding.
#[verifier::external_body]
fn zune_decode_into(jpeg: &[u8], buf: &mut Vec<u8>) -> (r: Result<ZuneFrame, String>)
    requires
        zune_header(jpeg@) == Ok::<Option<usize>, Seq<char>>(Some(old(buf)@.len() as usize)),
        frame::hurdle(jpeg@) is None,
    ensures
        (zune_outcome(r), final(buf)@) == zune_decoded(jpeg@, old(buf)@),
        zune_outcome(r) == zune_decoded(jpeg@, zeros(old(buf)@.len())).0,
        overwrites(jpeg@, old(buf)@.len()) ==> final(buf)@ == zune_decoded(
            jpeg@,
            zeros(old(buf)@.len()),
        ).1,
        final(buf)@.len() == old(buf)@.len(),
        r matches Ok(f) ==> (f.size matches Some(wh) && final(buf)@.len() == wh.0 * wh.1 * 4),
{
    let opts = zune_core::options::DecoderOptions::default()
        .jpeg_set_out_colorspace(zune_core::colorspace::ColorSpace::RGBA);
    let stream = zune_core::bytestream::ZCursor::new(jpeg);
    let mut dec = zune_jpeg::JpegDecoder::new_with_options(stream, opts);
    match dec.decode_into(buf) {
        Ok(()) => Ok(
            ZuneFrame { size: dec.info().map(|i| (i.width, i.height)), icc: dec.icc_profile() },
        ),
        Err(e) => Err(e.to_string()),
    }
}

/// The picture in `rgba` that zune-jpeg decoded, before the file's own facts are added.
pub open spec fn zune_picture(
    frame: Result<(Option<(u16, u16)>, Option<Seq<u8>>), Seq<char>>,
    rgba: Seq<u8>,
) -> Result<Picture, Failure> {
    match frame {
        Err(m) => Err(Failure::Decode(m)),
        Ok((None, _)) => Err(Failure::NoImage),
        Ok((Some((w, h)), icc)) => Ok(
            Picture {
                width: w as u32,
                height: h as u32,
                rgba,
                orientation: 1,
                icc,
                color_space: None,
                scale_denom: 1,
                native_width: w as u32,
                native_height: h as u32,
            },
        ),
    }
}

/// The image in `rgba`, given what zune-jpeg said when it decoded it there.
pub fn zune_image(frame: Result<ZuneFrame, String>, rgba: Vec<u8>) -> (r: Result<Image, Error>)
    ensures
        outcome(r) == zune_picture(zune_outcome(frame), rgba@),
{
    match frame {
        Err(m) => Err(Error::Decode(m)),
        Ok(f) => match f.size {
            None => Err(Error::NoImage),
            Some((w, h)) => Ok(
                Image {
                    width: w as u32,
                    height: h as u32,
                    rgba,
                    orientation: 1,
                    icc: f.icc,
                    color_space: None,
                    scale_denom: 1,
                    native_width: w as u32,
                    native_height: h as u32,
                },
            ),
        },
    }
}

/// `r` is what comes of `jpeg` when zune-jpeg decodes it into a buffer of `n` bytes that holds
/// `buf`. Only the pixels can depend on what that was, and only where not all are overwritten.
pub open spec fn zune_decodes(
    jpeg: Seq<u8>,
    n: nat,
    buf: Seq<u8>,
    r: Result<Picture, Failure>,
) -> bool {
    let (frame, rgba) = zune_decoded(jpeg, buf);
    let fresh = zune_decoded(jpeg, zeros(n));
    &&& r == zune_picture(frame, rgba)
    &&& frame == fresh.0
    &&& rgba.len() == n
    &&& overwrites(jpeg, n) ==> rgba == fresh.1
}

/// The error that a hurdle gives.
pub open spec fn hurdle_failure(h: Hurdle) -> Failure {
    match h {
        Hurdle::NoFrame => Failure::NoImage,
        Hurdle::FewComponents => Failure::Decode("too few components"@),
        Hurdle::Sampling => Failure::Decode("unsupported sampling factors"@),
    }
}

/// `r` is what decoding `jpeg` with zune-jpeg into a buffer that held `scratch` comes to.
pub open spec fn zune_gives(
    jpeg: Seq<u8>,
    scratch: Seq<u8>,
    r: Result<Picture, Failure>,
) -> bool {
    match zune_header(jpeg) {
        Err(m) => r == Err::<Picture, Failure>(Failure::Decode(m)),
        Ok(None) => r == Err::<Picture, Failure>(Failure::NoImage),
        Ok(Some(size)) => match frame::hurdle(jpeg) {
            Some(h) => r == Err::<Picture, Failure>(hurdle_failure(h)),
            None => exists|buf: Seq<u8>|
                {
                    &&& fitted(scratch, size as nat, buf)
                    &&& #[trigger] zune_decodes(jpeg, size as nat, buf, r)
                },
        },
    }
}

/// The picture has four bytes for each of its pixels.
pub open spec fn tightly_packed(p: Picture) -> bool {
    p.rgba.len() == p.width * p.height * 4
}

/// Decode with zune-jpeg, writing into `scratch` when it is large enough.
pub fn decode_zune(jpeg: &[u8], scratch: Vec<u8>) -> (r: Result<Image, Error>)
    ensures
        zune_gives(jpeg@, scratch@, outcome(r)),
        r matches Ok(image) ==> tightly_packed(image@),
{
    // Headers first so the output size is known and `scratch` can be sized to it.
    let size: usize = match zune_read_headers(jpeg) {
        Err(m) => {
            return Err(Error::Decode(m));
        },
        Ok(None) => {
            return Err(Error::NoImage);
        },
        Ok(Some(n)) => n,
    };
    match frame::find_hurdle(jpeg) {
        Some(Hurdle::NoFrame) => {
            return Err(Error::NoImage);
        },
        Some(Hurdle::FewComponents) => {
            return Err(Error::Decode(String::from_str("too few components")));
        },
        Some(Hurdle::Sampling) => {
            return Err(Error::Decode(String::from_str("unsupported sampling factors")));
        },
        None => {},
    }
    let mut rgba = fit(scratch, size);
    let ghost buf = rgba@;
    let frame = zune_decode_into(jpeg, &mut rgba);
    let r = zune_image(frame, rgba);
    assert(zune_decodes(jpeg@, size as nat, buf, outcome(r)));
    r
}

/// How a frame's pixels are laid out.
#[derive(Clone, Copy, PartialEq, Eq, Debug, Structural)]
pub enum PixelFormat {
    L8,
    L16,
    RGB24,
    CMYK32,
}

impl PixelFormat {
    /// Bytes per pixel.
    pub open spec fn bytes(self) -> int {
        match self {
            PixelFormat::L8 => 1,
            PixelFormat::L16 => 2,
            PixelFormat::RGB24 => 3,
            PixelFormat::CMYK32 => 4,
        }
    }
}

/// A frame that jpeg-decoder decoded.
pub struct JpegFrame {
    pub width: u16,
    pub height: u16,
    pub format: PixelFormat,
    /// Coded without loss, which leaves sample depth and scaling as they were.
    pub lossless: bool,
    pub pixels: Vec<u8>,
    pub icc: Option<Vec<u8>>,
}

/// What is known of a [`JpegFrame`] before its pixels are.
#[verifier::ext_equal]
pub struct JpegHeader {
    pub width: u16,
    pub height: u16,
    pub format: PixelFormat,
    pub lossless: bool,
    pub icc: Option<Seq<u8>>,
}

impl JpegFrame {
    pub open spec fn header(&self) -> JpegHeader {
        JpegHeader {
            width: self.width,
            height: self.height,
            format: self.format,
            lossless: self.lossless,
            icc: tiff::opt_bytes(self.icc),
        }
    }
}

/// What jpeg-decoder says of the frame in `jpeg` once it has decoded it at full size; nothing
/// of bytes that it cannot decode.
pub uninterp spec fn jpeg_decoder_full(jpeg: Seq<u8>) -> Option<JpegHeader>;

/// What jpeg-decoder says of the frame in `jpeg` once it has decoded it at the nearest size it
/// can produce to the one requested; nothing of bytes that it cannot decode.
pub uninterp spec fn jpeg_decoder_scaled(jpeg: Seq<u8>, width: u16, height: u16) -> Option<
    JpegHeader,
>;

/// `r` is what the decoder makes of a file of whose frame it says `said`. Frames that are not
/// lossless hold exactly their pixels. An error can have other causes than the file (the
/// decoder starts threads, and refuses what does not fit into memory), so it tells nothing.
pub open spec fn jpeg_frame_of(
    said: Option<JpegHeader>,
    r: Result<Option<JpegFrame>, String>,
) -> bool {
    match r {
        Ok(Some(f)) => {
            &&& said == Some(f.header())
            &&& !f.lossless ==> f.pixels@.len() == f.width * f.height * f.format.bytes()
        },
        Ok(None) => false,
        Err(_) => true,
    }
}

/// `jpeg_decoder::Decoder::decode`, then `info` and `icc_profile`. Header and profile of a
/// frame that was decoded depend on the bytes alone and are named; the pixels depend, in the
/// last bit, on the vector instructions the machine has, so only their number is stated.
///
/// The blocks must be countable: in a scan of one component the decoder computes the row after
/// the current block in a `u16`, which overflows at the last blocks of a frame that is too tall,
/// and so does the column where blocks are padded to threes. An error is tied to nothing: threads
/// that cannot be started come back as one, too.
#[verifier::external_body]
fn jpeg_decoder_decode(jpeg: &[u8]) -> (r: Result<Option<JpegFrame>, String>)
    requires
        frame::countable(jpeg@),
    ensures
        jpeg_frame_of(jpeg_decoder_full(jpeg@), r),
{
    let mut dec = jpeg_decoder::Decoder::new(std::io::Cursor::new(jpeg));
    let pixels = dec.decode().map_err(|e| e.to_string())?;
    Ok(dec.info().map(|i| JpegFrame {
        width: i.width,
        height: i.height,
        format: match i.pixel_format {
            jpeg_decoder::PixelFormat::L8 => PixelFormat::L8,
            jpeg_decoder::PixelFormat::L16 => PixelFormat::L16,
            jpeg_decoder::PixelFormat::RGB24 => PixelFormat::RGB24,
            jpeg_decoder::PixelFormat::CMYK32 => PixelFormat::CMYK32,
        },
        lossless: matches!(i.coding_process, jpeg_decoder::CodingProcess::Lossless),
        pixels, icc: dec.icc_profile() }))
}

/// As [`jpeg_decoder_decode`], after `jpeg_decoder::Decoder::scale`.
#[verifier::external_body]
fn jpeg_decoder_decode_scaled(jpeg: &[u8], width: u16, height: u16) -> (r: Result<
    Option<JpegFrame>,
    String,
>)
    requires
        frame::countable(jpeg@),
    ensures
        jpeg_frame_of(jpeg_decoder_scaled(jpeg@, width, height), r),
{
    let mut dec = jpeg_decoder::Decoder::new(std::io::Cursor::new(jpeg));
    dec.scale(width, height).map_err(|e| e.to_string())?;
    let pixels = dec.decode().map_err(|e| e.to_string())?;
    Ok(dec.info().map(|i| JpegFrame {
        width: i.width,
        height: i.height,
        format: match i.pixel_format {
            jpeg_decoder::PixelFormat::L8 => PixelFormat::L8,
            jpeg_decoder::PixelFormat::L16 => PixelFormat::L16,
            jpeg_decoder::PixelFormat::RGB24 => PixelFormat::RGB24,
            jpeg_decoder::PixelFormat::CMYK32 => PixelFormat::CMYK32,
        },
        lossless: matches!(i.coding_process, jpeg_decoder::CodingProcess::Lossless),
        pixels, icc: dec.icc_profile() }))
}

/// The error that a frame which cannot be widened to RGBA gives.
pub open spec fn unsupported(format: PixelFormat) -> Seq<char> {
    match format {
        PixelFormat::L8 => "unsupported pixel format L8"@,
        PixelFormat::L16 => "unsupported pixel format L16"@,
        PixelFormat::RGB24 => "unsupported pixel format RGB24"@,
        PixelFormat::CMYK32 => "unsupported pixel format CMYK32"@,
    }
}

/// The pixels of a decoded frame, widened to RGBA.
pub open spec fn widened(f: JpegFrame) -> Seq<u8> {
    if f.format == PixelFormat::RGB24 {
        spec_rgb_to_rgba(f.pixels@)
    } else {
        spec_gray_to_rgba(f.pixels@)
    }
}

/// The picture that a decoded frame makes, before the file's own facts are added. A lossless
/// frame may come with another number of pixels than its size says; that makes no picture.
pub open spec fn jpeg_picture(
    frame: Result<Option<JpegFrame>, String>,
    native: (u32, u32),
) -> Result<Picture, Failure> {
    match frame {
        Err(m) => Err(Failure::Decode(m@)),
        Ok(None) => Err(Failure::NoImage),
        Ok(Some(f)) => if f.format != PixelFormat::RGB24 && f.format != PixelFormat::L8 {
            Err(Failure::Decode(unsupported(f.format)))
        } else if widened(f).len() != f.width * f.height * 4 {
            Err(Failure::Decode("wrong number of pixels"@))
        } else {
            Ok(
                Picture {
                    width: f.width as u32,
                    height: f.height as u32,
                    rgba: widened(f),
                    orientation: 1,
                    icc: tiff::opt_bytes(f.icc),
                    color_space: None,
                    scale_denom: 1,
                    native_width: native.0,
                    native_height: native.1,
                },
            )
        },
    }
}

/// The image that a decoded frame makes: RGB and grey pixels are widened, other formats
/// refused, and so is a frame that has not as many pixels as its size says.
pub fn jpeg_image(frame: Result<Option<JpegFrame>, String>, native_w: u32, native_h: u32) -> (r:
    Result<Image, Error>)
    ensures
        outcome(r) == jpeg_picture(frame, (native_w, native_h)),
        r matches Ok(image) ==> tightly_packed(image@),
{
    let f = match frame {
        Err(m) => {
            return Err(Error::Decode(m));
        },
        Ok(None) => {
            return Err(Error::NoImage);
        },
        Ok(Some(f)) => f,
    };
    let rgba = match f.format {
        PixelFormat::RGB24 => rgb_to_rgba(f.pixels.as_slice()),
        PixelFormat::L8 => gray_to_rgba(f.pixels.as_slice()),
        PixelFormat::L16 => {
            return Err(Error::Decode(String::from_str("unsupported pixel format L16")));
        },
        PixelFormat::CMYK32 => {
            return Err(Error::Decode(String::from_str("unsupported pixel format CMYK32")));
        },
    };
    proof {
        assert(f.width * f.height <= 0xFFFF * 0xFFFF) by (nonlinear_arith)
            requires
                f.width <= 0xFFFF,
                f.height <= 0xFFFF,
        ;
    }
    if rgba.len() as u64 != f.width as u64 * f.height as u64 * 4 {
        return Err(Error::Decode(String::from_str("wrong number of pixels")));
    }
    Ok(
        Image {
            width: f.width as u32,
            height: f.height as u32,
            rgba,
            orientation: 1,
            icc: f.icc,
            color_space: None,
            scale_denom: 1,
            native_width: native_w,
            native_height: native_h,
        },
    )
}

/// The size to ask of the decoder for a picture of `native` size that is to cover `target`;
/// `None` when it is to be decoded whole.
pub open spec fn requested_size(native: (u32, u32), target: Option<(u32, u32)>) -> Option<
    (u16, u16),
> {
    match target {
        None => None,
        Some(t) => {
            let d = spec_scale_denominator(native, t);
            if d > 1 {
                Some((at_least_one(native.0 / d) as u16, at_least_one(native.1 / d) as u16))
            } else {
                None
            }
        },
    }
}

pub open spec fn at_least_one(n: u32) -> u32 {
    if n > 1 {
        n
    } else {
        1
    }
}

/// What jpeg-decoder says of `jpeg` at the requested size.
pub open spec fn jpeg_decoder_says(jpeg: Seq<u8>, request: Option<(u16, u16)>) -> Option<
    JpegHeader,
> {
    match request {
        Some((w, h)) => jpeg_decoder_scaled(jpeg, w, h),
        None => jpeg_decoder_full(jpeg),
    }
}

/// `r` is what decoding `jpeg` with jpeg-decoder comes to.
pub open spec fn jpeg_decoder_gives(
    jpeg: Seq<u8>,
    target: Option<(u32, u32)>,
    native: (u32, u32),
    r: Result<Picture, Failure>,
) -> bool {
    if frame::countable(jpeg) {
        exists|frame: Result<Option<JpegFrame>, String>|
            {
                &&& jpeg_frame_of(jpeg_decoder_says(jpeg, requested_size(native, target)), frame)
                &&& r == #[trigger] jpeg_picture(frame, native)
            }
    } else {
        r == Err::<Picture, Failure>(Failure::Decode("too many blocks"@))
    }
}

/// Decode with jpeg-decoder, scaled down as far as `target` allows.
pub fn decode_jpeg_decoder(
    jpeg: &[u8],
    target: Option<(u32, u32)>,
    native_w: u32,
    native_h: u32,
) -> (r: Result<Image, Error>)
    requires
        native_w <= 0xFFFF,
        native_h <= 0xFFFF,
    ensures
        jpeg_decoder_gives(jpeg@, target, (native_w, native_h), outcome(r)),
        r matches Ok(image) ==> tightly_packed(image@),
{
    if !frame::is_countable(jpeg) {
        return Err(Error::Decode(String::from_str("too many blocks")));
    }
    let mut request: Option<(u16, u16)> = None;
    if let Some((tw, th)) = target {
        let denom: u32 = scale_denominator(native_w, native_h, tw, th);
        if denom > 1 {
            // The decoder snaps to what the DCT can actually produce.
            let (w, h): (u32, u32) = (native_w / denom, native_h / denom);
            proof {
                assert(native_w / denom <= native_w) by (nonlinear_arith)
                    requires
                        denom > 1,
                ;
                assert(native_h / denom <= native_h) by (nonlinear_arith)
                    requires
                        denom > 1,
                ;
            }
            request = Some(
                (
                    if w > 1 {
                        w as u16
                    } else {
                        1
                    },
                    if h > 1 {
                        h as u16
                    } else {
                        1
                    },
                ),
            );
        }
    }
    assert(request == requested_size((native_w, native_h), target));
    let frame = match request {
        Some((w, h)) => jpeg_decoder_decode_scaled(jpeg, w, h),
        None => jpeg_decoder_decode(jpeg),
    };
    jpeg_image(frame, native_w, native_h)
}

/// A decoded picture with what the file says of it: its orientation, colour space and native
/// size, the reduction that was made, and the outer file's profile in preference to one found
/// while decoding.
pub open spec fn finished(p: Picture, found: Found, native: (u32, u32)) -> Picture {
    Picture {
        orientation: found.orientation,
        color_space: found.color_space,
        icc: if found.icc is Some {
            found.icc
        } else {
            p.icc
        },
        native_width: native.0,
        native_height: native.1,
        scale_denom: if p.width == 0 {
            1
        } else {
            at_least_one(native.0 / p.width)
        },
        ..p
    }
}

/// Add to a decoded image what the file says of it.
pub fn finish(image: Image, loc: Located<'_>, native: (u32, u32)) -> (r: Image)
    ensures
        r@ == finished(image@, loc@, native),
{
    let denom: u32 = if image.width == 0 {
        1
    } else {
        native.0 / image.width
    };
    Image {
        width: image.width,
        height: image.height,
        rgba: image.rgba,
        orientation: loc.orientation,
        icc: match loc.icc {
            Some(icc) => Some(icc),
            None => image.icc,
        },
        color_space: loc.color_space,
        scale_denom: if denom > 1 {
            denom
        } else {
            1
        },
        native_width: native.0,
        native_height: native.1,
    }
}

/// `r` is what decoding the located bitstream comes to, before the file's own facts are added.
pub open spec fn decoder_gives(
    which: Decoder,
    jpeg: Seq<u8>,
    target: Option<(u32, u32)>,
    native: (u32, u32),
    scratch: Seq<u8>,
    r: Result<Picture, Failure>,
) -> bool {
    match which {
        Decoder::Zune => zune_gives(jpeg, scratch, r),
        Decoder::JpegDecoder => jpeg_decoder_gives(jpeg, target, native, r),
    }
}

/// What decoding the located bitstream came to, with the file's own facts added to a picture.
pub open spec fn with_facts(
    r: Result<Picture, Failure>,
    found: Found,
    native: (u32, u32),
) -> Result<Picture, Failure> {
    match r {
        Ok(p) => Ok(finished(p, found, native)),
        Err(e) => Err(e),
    }
}

/// `r` is what decoding a file comes to.
pub open spec fn decoding_gives(
    data: Seq<u8>,
    target: Option<(u32, u32)>,
    which: Decoder,
    scratch: Seq<u8>,
    r: Result<Picture, Failure>,
) -> bool {
    match spec_locate(data) {
        None => r == Err::<Picture, Failure>(Failure::NoImage),
        Some(found) => match dims_from(found.jpeg, 2) {
            None => r == Err::<Picture, Failure>(Failure::NoImage),
            Some(native) => exists|p: Result<Picture, Failure>|
                {
                    &&& #[trigger] decoder_gives(which, found.jpeg, target, native, scratch, p)
                    &&& r == with_facts(p, found, native)
                },
        },
    }
}

/// Decode `data` (JPEG or RAW) to RGBA8.
///
/// `target` is a desired maximum size. When the chosen decoder supports DCT scaling,
/// the largest power-of-two reduction that still covers `target` is used -- never
/// smaller, so the image is never upscaled to fill the viewport.
pub fn decode(data: &[u8], target: Option<(u32, u32)>, which: Decoder) -> (r: Result<Image, Error>)
    ensures
        decoding_gives(data@, target, which, Seq::empty(), outcome(r)),
        r matches Ok(image) ==> tightly_packed(image@) && 1 <= image.orientation <= 8,
{
    decode_reusing(data, target, which, Vec::new())
}

/// As [`decode`], but writing into `scratch` when it is large enough.
///
/// The buffer is grown to fit if it is too small, so any buffer is safe to pass,
/// including an empty one.
pub fn decode_reusing(
    data: &[u8],
    target: Option<(u32, u32)>,
    which: Decoder,
    scratch: Vec<u8>,
) -> (r: Result<Image, Error>)
    ensures
        decoding_gives(data@, target, which, scratch@, outcome(r)),
        r matches Ok(image) ==> tightly_packed(image@) && 1 <= image.orientation <= 8,
{
    let loc = match locate(data) {
        Ok(loc) => loc,
        Err(e) => {
            return Err(e);
        },
    };
    let native = match jpeg_dimensions(loc.jpeg) {
        Some(d) => d,
        None => {
            return Err(Error::NoImage);
        },
    };
    let ghost found = loc@;
    assert(1 <= found.orientation <= 8) by {
        law_located_is_a_jpeg(data@);
    }
    let decoded = match which {
        Decoder::Zune => decode_zune(loc.jpeg, scratch),
        Decoder::JpegDecoder => decode_jpeg_decoder(loc.jpeg, target, native.0, native.1),
    };
    assert(decoder_gives(which, found.jpeg, target, native, scratch@, outcome(decoded)));
    match decoded {
        Ok(image) => Ok(finish(image, loc, native)),
        Err(e) => Err(e),
    }
}

/// Probing a file agrees with decoding it, so that a view laid out from the header never moves
/// when the pixels land. And a file that cannot be probed cannot be decoded.
pub proof fn law_probe_agrees_with_decode(
    data: Seq<u8>,
    target: Option<(u32, u32)>,
    which: Decoder,
    scratch: Seq<u8>,
    r: Result<Picture, Failure>,
)
    requires
        decoding_gives(data, target, which, scratch, r),
    ensures
        r matches Ok(p) ==> spec_probe(data) == Some(
            (p.native_width, p.native_height, p.orientation),
        ),
        spec_probe(data) is None ==> r == Err::<Picture, Failure>(Failure::NoImage),
{
}

/// A fresh decode with zune-jpeg depends on the bytes alone: the buffer it starts from is all
/// zeros, whatever the allocator did.
pub proof fn law_fresh_zune_decode_is_determined(
    jpeg: Seq<u8>,
    r: Result<Picture, Failure>,
    s: Result<Picture, Failure>,
)
    requires
        zune_gives(jpeg, Seq::empty(), r),
        zune_gives(jpeg, Seq::empty(), s),
    ensures
        r == s,
{
    if zune_header(jpeg) is Ok && zune_header(jpeg)->Ok_0 is Some {
        let size = zune_header(jpeg)->Ok_0->0;
        assert forall|buf: Seq<u8>| fitted(Seq::empty(), size as nat, buf) implies buf == zeros(
            size as nat,
        ) by {
            assert(Seq::<u8>::empty() + zeros(size as nat) == zeros(size as nat));
            assert(Seq::<u8>::empty().take(0) == zeros(0));
        }
    }
}

/// A frame that jpeg-decoder decoded has its picture, unless it is lossless: RGB and grey pixels
/// are as many as its size says.
pub proof fn law_every_lossy_frame_has_its_picture(said: Option<JpegHeader>, f: JpegFrame, native: (
    u32,
    u32,
))
    requires
        jpeg_frame_of(said, Ok(Some(f))),
        !f.lossless,
        f.format == PixelFormat::RGB24 || f.format == PixelFormat::L8,
    ensures
        jpeg_picture(Ok(Some(f)), native) matches Ok(p) && p.rgba == widened(f) && p.width
            == f.width && p.height == f.height,
{
    let n = f.width * f.height;
    assert(n * 3 / 3 == n);
    assert(n * 1 == n);
}

/// What a scratch buffer held makes no difference to what zune-jpeg decodes into it, but to bytes
/// that it leaves alone, as it does in a damaged file, or in one of two components or of four
/// inks. Two decodes of one file fail alike, or both give pictures that are the same but for the
/// pixels; and the pixels are the same too when the decoder overwrites all of them. So decoding
/// into a pooled buffer matches a fresh decode.
pub proof fn law_scratch_does_not_matter(
    data: Seq<u8>,
    target: Option<(u32, u32)>,
    scratch: Seq<u8>,
    other: Seq<u8>,
    r: Result<Picture, Failure>,
    s: Result<Picture, Failure>,
)
    requires
        decoding_gives(data, target, Decoder::Zune, scratch, r),
        decoding_gives(data, target, Decoder::Zune, other, s),
    ensures
        match (r, s) {
            (Err(e), Err(f)) => e == f,
            (Ok(p), Ok(q)) => {
                &&& p == (Picture { rgba: p.rgba, ..q })
                &&& p.rgba.len() == q.rgba.len()
            },
            _ => false,
        },
        match (spec_locate(data), r) {
            (Some(found), Ok(p)) => overwrites(found.jpeg, p.rgba.len()) ==> r == s,
            _ => true,
        },
{
}

/// That all bytes are overwritten is the least that makes scratch buffers indifferent: where some
/// are not, a buffer of zeros and one of ones come to different pictures.
pub proof fn law_stale_bytes_show_where_some_are_left(
    jpeg: Seq<u8>,
    size: usize,
    r: Result<Picture, Failure>,
    s: Result<Picture, Failure>,
)
    requires
        zune_header(jpeg) == Ok::<Option<usize>, Seq<char>>(Some(size)),
        zune_gives(jpeg, zeros(size as nat), r),
        zune_gives(jpeg, ones(size as nat), s),
        r is Ok,
    ensures
        (r == s) == overwrites(jpeg, size as nat),
{
    let n = size as nat;
    assert(zeros(n).take(n as int) == zeros(n));
    assert(ones(n).take(n as int) == ones(n));
}

/// jpeg-decoder has a buffer of its own: what comes of a file can come of it whatever the scratch
/// buffer held. And two decodes that succeed give pictures that are the same but for the pixels,
/// of which there are as many.
pub proof fn law_jpeg_decoder_needs_no_scratch(
    data: Seq<u8>,
    target: Option<(u32, u32)>,
    scratch: Seq<u8>,
    other: Seq<u8>,
    r: Result<Picture, Failure>,
    s: Result<Picture, Failure>,
)
    requires
        decoding_gives(data, target, Decoder::JpegDecoder, scratch, r),
        decoding_gives(data, target, Decoder::JpegDecoder, other, s),
    ensures
        decoding_gives(data, target, Decoder::JpegDecoder, other, r),
        decoding_gives(data, target, Decoder::JpegDecoder, scratch, s),
        match (r, s) {
            (Ok(p), Ok(q)) => {
                &&& p == (Picture { rgba: p.rgba, ..q })
                &&& p.rgba.len() == q.rgba.len()
            },
            _ => true,
        },
{
    if let Some(found) = spec_locate(data) {
        if let Some(native) = dims_from(found.jpeg, 2) {
            let p = choose|p: Result<Picture, Failure>|
                {
                    &&& #[trigger] decoder_gives(
                        Decoder::JpegDecoder,
                        found.jpeg,
                        target,
                        native,
                        scratch,
                        p,
                    )
                    &&& r == with_facts(p, found, native)
                };
            let q = choose|q: Result<Picture, Failure>|
                {
                    &&& #[trigger] decoder_gives(
                        Decoder::JpegDecoder,
                        found.jpeg,
                        target,
                        native,
                        other,
                        q,
                    )
                    &&& s == with_facts(q, found, native)
                };
            assert(decoder_gives(Decoder::JpegDecoder, found.jpeg, target, native, other, p));
            assert(decoder_gives(Decoder::JpegDecoder, found.jpeg, target, native, scratch, q));
            if r is Ok && s is Ok {
                let said = jpeg_decoder_says(found.jpeg, requested_size(native, target));
                let f = choose|f: Result<Option<JpegFrame>, String>|
                    jpeg_frame_of(said, f) && p == #[trigger] jpeg_picture(f, native);
                let g = choose|g: Result<Option<JpegFrame>, String>|
                    jpeg_frame_of(said, g) && q == #[trigger] jpeg_picture(g, native);
                assert(f->Ok_0->0.header() == g->Ok_0->0.header());
            }
        }
    }
}

/// A file that starts like a JPEG is one, and is taken whole, with the orientation, the colours
/// and the profile that its own header gives.
pub proof fn law_jpeg_is_taken_whole(data: Seq<u8>)
    requires
        data.len() >= 3,
        data[0] == 0xFF,
        data[1] == 0xD8,
        data[2] == 0xFF,
    ensures
        ({
            let f = spec_locate(data)->0;
            &&& spec_locate(data) is Some
            &&& f.jpeg == data
            &&& f.orientation == tiff::spec_jpeg_meta(data).orientation
            &&& f.color_space == tiff::spec_jpeg_meta(data).color_space
            &&& f.icc == tiff::spec_jpeg_meta(data).icc
            &&& !f.from_raw
        }),
{
}

/// Of any other file the preview with the most pixels is taken, of those with as many the one
/// with the most bytes; it is turned as its own directory says, or else the file, or else its own
/// header; and the file's colour space goes before its own. A file without previews has nothing
/// to show.
pub proof fn law_raw_shows_its_largest_preview(data: Seq<u8>)
    requires
        data.len() < 3 || data[0] != 0xFF || data[1] != 0xD8 || data[2] != 0xFF,
    ensures
        tiff::spec_parse(data) is None ==> spec_locate(data) is None,
        tiff::spec_parse(data) matches Some(info) ==> {
            &&& info.previews.len() == 0 ==> spec_locate(data) is None
            &&& info.previews.len() > 0 ==> spec_locate(data) is Some && exists|k: int|
                {
                    let p = #[trigger] info.previews[k];
                    let f = spec_locate(data)->0;
                    let own = tiff::spec_jpeg_meta(f.jpeg);
                    &&& 0 <= k < info.previews.len()
                    &&& forall|i: int|
                        0 <= i < info.previews.len() ==> {
                            let q = #[trigger] info.previews[i];
                            &&& q.width * q.height <= p.width * p.height
                            &&& q.width * q.height == p.width * p.height ==> q.len <= p.len
                        }
                    &&& f.jpeg == data.subrange(p.offset as int, p.offset + p.len)
                    &&& f.from_raw
                    &&& f.icc == own.icc
                    &&& 2 <= p.orientation <= 8 ==> f.orientation == p.orientation
                    &&& p.orientation == 1 && info.orientation != 1 ==> f.orientation
                        == info.orientation
                    &&& p.orientation == 1 && info.orientation == 1 ==> f.orientation
                        == own.orientation
                    &&& info.color_space is Some ==> f.color_space == info.color_space
                    &&& info.color_space is None ==> f.color_space == own.color_space
                }
        },
{
    if let Some(info) = tiff::spec_parse(data) {
        tiff::law_largest_has_the_most_pixels(info.previews);
        if let Some(p) = tiff::largest(info.previews) {
            let k = choose|k: int| 0 <= k < info.previews.len() && info.previews[k] == p;
            assert(info.previews[k] == p);
        }
    }
}

/// Every RGB pixel keeps its three bytes and becomes opaque, every grey one is repeated.
pub proof fn law_pixels_keep_their_colours(pixels: Seq<u8>)
    ensures
        spec_rgb_to_rgba(pixels).len() == pixels.len() / 3 * 4,
        forall|k: int|
            #![trigger pixels[3 * k]]
            0 <= k && 3 * k + 3 <= pixels.len() ==> {
                let out = spec_rgb_to_rgba(pixels);
                &&& out[4 * k] == pixels[3 * k]
                &&& out[4 * k + 1] == pixels[3 * k + 1]
                &&& out[4 * k + 2] == pixels[3 * k + 2]
                &&& out[4 * k + 3] == 255
            },
        spec_gray_to_rgba(pixels).len() == pixels.len() * 4,
        forall|k: int|
            0 <= k < pixels.len() ==> {
                let g = #[trigger] pixels[k];
                let out = spec_gray_to_rgba(pixels);
                &&& out[4 * k] == g
                &&& out[4 * k + 1] == g
                &&& out[4 * k + 2] == g
                &&& out[4 * k + 3] == 255
            },
{
    assert forall|k: int|
        #![trigger pixels[3 * k]]
        0 <= k && 3 * k + 3 <= pixels.len() implies {
        let out = spec_rgb_to_rgba(pixels);
        &&& out[4 * k] == pixels[3 * k]
        &&& out[4 * k + 1] == pixels[3 * k + 1]
        &&& out[4 * k + 2] == pixels[3 * k + 2]
        &&& out[4 * k + 3] == 255
    } by {
        lemma_quarters(k);
    }
    assert forall|k: int| 0 <= k < pixels.len() implies {
        let g = #[trigger] pixels[k];
        let out = spec_gray_to_rgba(pixels);
        &&& out[4 * k] == g
        &&& out[4 * k + 1] == g
        &&& out[4 * k + 2] == g
        &&& out[4 * k + 3] == 255
    } by {
        lemma_quarters(k);
    }
}

proof fn lemma_quarters(k: int)
    ensures
        (4 * k) / 4 == k && (4 * k) % 4 == 0,
        (4 * k + 1) / 4 == k && (4 * k + 1) % 4 == 1,
        (4 * k + 2) / 4 == k && (4 * k + 2) % 4 == 2,
        (4 * k + 3) / 4 == k && (4 * k + 3) % 4 == 3,
{
}

/// A picture is reduced by 1, 2, 4 or 8: never so far that it no longer covers the target in both
/// directions, and by as much as that allows. A target of nothing reduces nothing.
pub proof fn law_reduction_is_the_largest_that_covers(native: (u32, u32), target: (u32, u32))
    ensures
        ({
            let d = spec_scale_denominator(native, target);
            &&& d == 1 || d == 2 || d == 4 || d == 8
            &&& target.0 == 0 || target.1 == 0 ==> d == 1
            &&& d > 1 ==> native.0 >= d * target.0 && native.1 >= d * target.1
            &&& d < 8 && target.0 > 0 && target.1 > 0 ==> native.0 < 2 * d * target.0 || native.1
                < 2 * d * target.1
            &&& requested_size(native, None) is None
            &&& d == 1 ==> requested_size(native, Some(target)) is None
            &&& d > 1 && native.0 <= 65535 && native.1 <= 65535 ==> requested_size(
                native,
                Some(target),
            ) == Some(((native.0 / d) as u16, (native.1 / d) as u16))
        }),
{
    let d = spec_scale_denominator(native, target);
    assert(native.0 / 8u32 <= native.0 / 4u32 <= native.0 / 2u32);
    assert(native.1 / 8u32 <= native.1 / 4u32 <= native.1 / 2u32);
    if d > 1 {
        assert(native.0 / d >= 1 && native.1 / d >= 1);
    }
}

/// A finished picture keeps its pixels and says of itself what the file says: orientation,
/// colours, native size, and by how much it was reduced. The file's profile goes before one that
/// was found on the way.
pub proof fn law_finished_picture_says_what_the_file_says(
    p: Picture,
    found: Found,
    native: (u32, u32),
    reduction: u32,
)
    ensures
        ({
            let q = finished(p, found, native);
            &&& q.width == p.width
            &&& q.height == p.height
            &&& q.rgba == p.rgba
            &&& q.orientation == found.orientation
            &&& q.color_space == found.color_space
            &&& found.icc is Some ==> q.icc == found.icc
            &&& found.icc is None ==> q.icc == p.icc
            &&& q.native_width == native.0
            &&& q.native_height == native.1
            &&& q.scale_denom >= 1
            &&& p.width > 0 && reduction > 0 && native.0 == reduction * p.width ==> q.scale_denom
                == reduction
        }),
{
    if p.width > 0 && reduction > 0 && native.0 == reduction * p.width {
        assert(native.0 / p.width == reduction) by (nonlinear_arith)
            requires
                p.width > 0,
                native.0 == reduction * p.width,
        ;
    }
}

/// Whatever decoder is used, a decoded file has the orientation, the colours and the native size
/// that were found in it, and as many bytes as it has pixels, four times over; and a file in
/// which nothing was found is not decoded.
pub proof fn law_decoded_file_is_what_was_found(
    data: Seq<u8>,
    target: Option<(u32, u32)>,
    which: Decoder,
    scratch: Seq<u8>,
    r: Result<Picture, Failure>,
)
    requires
        decoding_gives(data, target, which, scratch, r),
    ensures
        spec_locate(data) is None ==> r == Err::<Picture, Failure>(Failure::NoImage),
        spec_locate(data) matches Some(found) ==> match r {
            Ok(p) => {
                &&& p.orientation == found.orientation
                &&& p.color_space == found.color_space
                &&& found.icc is Some ==> p.icc == found.icc
                &&& dims_from(found.jpeg, 2) == Some((p.native_width, p.native_height))
            },
            Err(_) => true,
        },
{
}

/// A frame of RGB or grey pixels, as many as its size says, becomes a picture of that size in
/// which every pixel stands where it stood; frames of other formats, of another number of pixels,
/// and those that could not be decoded are refused, with the reason.
pub proof fn law_frame_becomes_a_picture(f: JpegFrame, native: (u32, u32), m: String)
    ensures
        jpeg_picture(Err(m), native) == Err::<Picture, Failure>(Failure::Decode(m@)),
        jpeg_picture(Ok(None), native) == Err::<Picture, Failure>(Failure::NoImage),
        f.format == PixelFormat::L16 ==> jpeg_picture(Ok(Some(f)), native) == Err::<
            Picture,
            Failure,
        >(Failure::Decode("unsupported pixel format L16"@)),
        f.format == PixelFormat::CMYK32 ==> jpeg_picture(Ok(Some(f)), native) == Err::<
            Picture,
            Failure,
        >(Failure::Decode("unsupported pixel format CMYK32"@)),
        f.format == PixelFormat::RGB24 && f.pixels@.len() == f.width * f.height * 3 ==> {
            let p = jpeg_picture(Ok(Some(f)), native)->Ok_0;
            &&& jpeg_picture(Ok(Some(f)), native) is Ok
            &&& p.width == f.width && p.height == f.height
            &&& p.native_width == native.0 && p.native_height == native.1
            &&& p.rgba == spec_rgb_to_rgba(f.pixels@)
        },
        f.format == PixelFormat::L8 && f.pixels@.len() == f.width * f.height ==> {
            let p = jpeg_picture(Ok(Some(f)), native)->Ok_0;
            &&& jpeg_picture(Ok(Some(f)), native) is Ok
            &&& p.width == f.width && p.height == f.height
            &&& p.native_width == native.0 && p.native_height == native.1
            &&& p.rgba == spec_gray_to_rgba(f.pixels@)
        },
        f.format == PixelFormat::L8 && f.pixels@.len() != f.width * f.height ==> jpeg_picture(
            Ok(Some(f)),
            native,
        ) == Err::<Picture, Failure>(Failure::Decode("wrong number of pixels"@)),
{
    let n = f.width * f.height;
    assert(n * 3 / 3 == n);
    assert(0 <= n) by (nonlinear_arith)
        requires
            n == f.width * f.height,
            f.width >= 0,
            f.height >= 0,
    ;
}

/// What zune-jpeg decoded is a picture of the size that it said, in the buffer that it filled;
/// where it said no size there is none, and what it said went wrong is passed on.
pub proof fn law_zune_frame_becomes_a_picture(
    w: u16,
    h: u16,
    icc: Option<Seq<u8>>,
    m: Seq<char>,
    rgba: Seq<u8>,
)
    ensures
        zune_picture(Err(m), rgba) == Err::<Picture, Failure>(Failure::Decode(m)),
        zune_picture(Ok((None, icc)), rgba) == Err::<Picture, Failure>(Failure::NoImage),
        ({
            let r = zune_picture(Ok((Some((w, h)), icc)), rgba);
            &&& r is Ok
            &&& r->Ok_0.width == w && r->Ok_0.height == h
            &&& r->Ok_0.native_width == w && r->Ok_0.native_height == h
            &&& r->Ok_0.rgba == rgba
            &&& r->Ok_0.icc == icc
        }),
{
}

/// A buffer that is handed back to a pool with room for it is the next one handed out, and the
/// others wait behind it.
pub proof fn law_pool_keeps_what_it_is_given(
    spares: Seq<Seq<u8>>,
    limit: nat,
    buf: Seq<u8>,
    capacity: nat,
)
    ensures
        ({
            let after = given(spares, limit, buf, capacity);
            &&& capacity > 0 && spares.len() < limit ==> after.len() == spares.len() + 1
                && after.last() == buf
            &&& capacity == 0 || spares.len() >= limit ==> after == spares
            &&& forall|i: int| 0 <= i < spares.len() ==> #[trigger] after[i] == spares[i]
        }),
{
}

/// A buffer that is made another length keeps its bytes where its allocation has the room, and
/// is zero everywhere else.
pub proof fn law_fitted_buffer_is_old_bytes_or_zeros(buf: Seq<u8>, len: nat, capacity: nat)
    requires
        buf.len() <= capacity,
    ensures
        ({
            let out = fitted_within(buf, len, capacity);
            &&& out.len() == len
            &&& forall|i: int|
                0 <= i < len && i < buf.len() && len <= capacity ==> #[trigger] out[i] == buf[i]
            &&& forall|i: int|
                0 <= i < len && (i >= buf.len() || len > capacity) ==> #[trigger] out[i] == 0
        }),
{
}

/// jpeg-decoder is asked for the whole picture, or for the one reduced as far as the target
/// allows, and what it decoded is what comes out.
pub proof fn law_jpeg_decoder_is_asked_for_the_reduced_size(
    jpeg: Seq<u8>,
    target: Option<(u32, u32)>,
    native: (u32, u32),
    r: Result<Picture, Failure>,
)
    requires
        frame::countable(jpeg),
        jpeg_decoder_gives(jpeg, target, native, r),
        native.0 <= 65535,
        native.1 <= 65535,
    ensures
        r matches Ok(p) ==> {
            let d = match target {
                Some(t) => spec_scale_denominator(native, t),
                None => 1,
            };
            let said = if d > 1 {
                jpeg_decoder_scaled(jpeg, (native.0 / d) as u16, (native.1 / d) as u16)
            } else {
                jpeg_decoder_full(jpeg)
            };
            &&& said is Some
            &&& p.width == said->0.width
            &&& p.height == said->0.height
            &&& p.icc == said->0.icc
            &&& p.native_width == native.0 && p.native_height == native.1
            &&& p.rgba.len() == p.width * p.height * 4
        },
{
    if let Some(t) = target {
        law_reduction_is_the_largest_that_covers(native, t);
    }
    let f = choose|f: Result<Option<JpegFrame>, String>|
        {
            &&& jpeg_frame_of(jpeg_decoder_says(jpeg, requested_size(native, target)), f)
            &&& r == #[trigger] jpeg_picture(f, native)
        };
    assert(r == jpeg_picture(f, native));
}

} // verus!

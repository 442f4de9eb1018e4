//! How a TIFF stream and the header of a JPEG are written, field by field and in either byte
//! order; and that what is written there is what [`crate::tiff`] reads.
use vstd::prelude::*;
use crate::tiff::{ColorSpace, Endian, Preview, TiffFacts};

verus! {

/// The two bytes of `v` stand at `at`: the low one first in little-endian order, the high one
/// first in big-endian order.
pub open spec fn short_at(e: Endian, data: Seq<u8>, at: int, v: u16) -> bool {
    let (low, high) = (v as int % 256, v as int / 256);
    &&& 0 <= at && at + 2 <= data.len()
    &&& match e {
        Endian::Little => data[at] == low && data[at + 1] == high,
        Endian::Big => data[at] == high && data[at + 1] == low,
    }
}

/// The four bytes of `v` stand at `at`, from the lowest to the highest in little-endian order
/// and from the highest to the lowest in big-endian order.
pub open spec fn long_at(e: Endian, data: Seq<u8>, at: int, v: u32) -> bool {
    let b0 = v as int % 256;
    let b1 = v as int / 256 % 256;
    let b2 = v as int / 65536 % 256;
    let b3 = v as int / 16777216;
    &&& 0 <= at && at + 4 <= data.len()
    &&& match e {
        Endian::Little => data[at] == b0 && data[at + 1] == b1 && data[at + 2] == b2 && data[at + 3]
            == b3,
        Endian::Big => data[at] == b3 && data[at + 1] == b2 && data[at + 2] == b1 && data[at + 3]
            == b0,
    }
}

/// The value of an entry: a SHORT (type 3) or a LONG (type 4), which stand in the entry itself,
/// or something of another type.
pub enum Field {
    Short(u16),
    Long(u32),
    Other(u16),
}

impl Field {
    /// The number that it holds.
    pub open spec fn number(self) -> Option<u32> {
        match self {
            Field::Short(v) => Some(v as u32),
            Field::Long(v) => Some(v),
            Field::Other(_) => None,
        }
    }
}

/// An entry of a directory.
pub struct Entry {
    pub tag: u16,
    pub field: Field,
}

/// A directory (IFD) at the offset `at`: its entries, and the offset of the next one.
pub struct Directory {
    pub at: u32,
    pub entries: Seq<Entry>,
    pub link: u32,
}

/// The twelve bytes of an entry stand at `at`: tag, type, count, value.
pub open spec fn entry_at(e: Endian, data: Seq<u8>, at: int, x: Entry) -> bool {
    &&& 0 <= at && at + 12 <= data.len()
    &&& short_at(e, data, at, x.tag)
    &&& match x.field {
        Field::Short(v) => short_at(e, data, at + 2, 3) && short_at(e, data, at + 8, v),
        Field::Long(v) => short_at(e, data, at + 2, 4) && long_at(e, data, at + 8, v),
        Field::Other(kind) => kind != 3 && kind != 4 && short_at(e, data, at + 2, kind),
    }
}

/// The directory stands in the data, whole: the number of entries, the entries, the link.
pub open spec fn has_directory(e: Endian, data: Seq<u8>, d: Directory) -> bool {
    &&& d.entries.len() <= 512
    &&& short_at(e, data, d.at as int, d.entries.len() as u16)
    &&& forall|i: int|
        0 <= i < d.entries.len() ==> entry_at(e, data, d.at + 2 + 12 * i, #[trigger] d.entries[i])
    &&& long_at(e, data, d.at + 2 + 12 * d.entries.len(), d.link)
}

/// The stream opens with its byte order, `II` or `MM`, the number 42 and the offset `first`.
pub open spec fn has_header(e: Endian, data: Seq<u8>, first: u32) -> bool {
    &&& data.len() >= 8
    &&& match e {
        Endian::Little => data[0] == 0x49 && data[1] == 0x49,
        Endian::Big => data[0] == 0x4D && data[1] == 0x4D,
    }
    &&& short_at(e, data, 2, 42)
    &&& long_at(e, data, 4, first)
}

/// The entries give `tag` the value `v`; where several do, the last counts.
pub open spec fn declares(entries: Seq<Entry>, tag: u16, v: u32) -> bool {
    exists|i: int|
        {
            &&& 0 <= i < entries.len()
            &&& (#[trigger] entries[i]).tag == tag
            &&& entries[i].field.number() == Some(v)
            &&& forall|j: int|
                i < j < entries.len() && (#[trigger] entries[j]).tag == tag
                    ==> entries[j].field.number() is None
        }
}

/// No entry gives `tag` a value.
pub open spec fn silent(entries: Seq<Entry>, tag: u16) -> bool {
    forall|i: int|
        0 <= i < entries.len() && (#[trigger] entries[i]).tag == tag
            ==> entries[i].field.number() is None
}

/// A JPEG of `l` bytes stands at `o`.
pub open spec fn jpeg_at(data: Seq<u8>, o: int, l: int) -> bool {
    &&& l > 0
    &&& o + l <= data.len()
    &&& o + 3 <= data.len()
    &&& data[o] == 0xFF && data[o + 1] == 0xD8 && data[o + 2] == 0xFF
}

/// The entries point at a JPEG of `l` bytes at `o`: JPEGInterchangeFormat (0x0201) is where, and
/// JPEGInterchangeFormatLength (0x0202) is how long.
pub open spec fn points_at_jpeg(data: Seq<u8>, entries: Seq<Entry>, o: u32, l: u32) -> bool {
    declares(entries, 0x0201, o) && declares(entries, 0x0202, l) && jpeg_at(
        data,
        o as int,
        l as int,
    )
}

/// `p` is the preview that the entries point at, with what they say of it: ImageWidth (0x0100),
/// ImageLength (0x0101) and Orientation (0x0112).
pub open spec fn describes(entries: Seq<Entry>, o: u32, l: u32, p: Preview) -> bool {
    &&& p.offset == o
    &&& p.len == l
    &&& forall|w: u32| #[trigger] declares(entries, 0x0100, w) ==> p.width == w
    &&& silent(entries, 0x0100) ==> p.width == 0
    &&& forall|h: u32| #[trigger] declares(entries, 0x0101, h) ==> p.height == h
    &&& silent(entries, 0x0101) ==> p.height == 0
    &&& forall|v: u32| #[trigger]
        declares(entries, 0x0112, v) && 1 <= v <= 8 ==> p.orientation == v
    &&& silent(entries, 0x0112) ==> p.orientation == 1
}

/// The directories stand in the data, each linked to the next one, in different places.
pub open spec fn has_chain(e: Endian, data: Seq<u8>, dirs: Seq<Directory>) -> bool {
    &&& 1 <= dirs.len() <= 16
    &&& has_header(e, data, dirs[0].at)
    &&& forall|k: int| 0 <= k < dirs.len() ==> has_directory(e, data, #[trigger] dirs[k])
    &&& forall|k: int| 0 <= k < dirs.len() ==> (#[trigger] dirs[k]).at != 0
    &&& forall|k: int, m: int|
        0 <= k < dirs.len() && m == k + 1 && m < dirs.len() ==> (#[trigger] dirs[k]).link == (
        #[trigger] dirs[m]).at
    &&& forall|k: int, m: int|
        0 <= k < m < dirs.len() ==> (#[trigger] dirs[k]).at != (#[trigger] dirs[m]).at
}

proof fn lemma_short(e: Endian, data: Seq<u8>, at: int, v: u16)
    requires
        short_at(e, data, at, v),
    ensures
        crate::tiff::u16_at(e, data, at) == Some(v),
{
    assert(v as int == v as int % 256 + 256 * (v as int / 256));
}

pub proof fn lemma_long(e: Endian, data: Seq<u8>, at: int, v: u32)
    requires
        long_at(e, data, at, v),
    ensures
        crate::tiff::u32_at(e, data, at) == Some(v),
{
    let n = v as int;
    assert(n == n % 256 + 256 * (n / 256 % 256) + 65536 * (n / 65536 % 256) + 16777216 * (n
        / 16777216));
}

/// A number is read as it is written, in either byte order; past the end there is none.
pub proof fn law_numbers_read_back(e: Endian, data: Seq<u8>, at: int, v: u16, w: u32)
    ensures
        short_at(e, data, at, v) ==> crate::tiff::u16_at(e, data, at) == Some(v),
        long_at(e, data, at, w) ==> crate::tiff::u32_at(e, data, at) == Some(w),
        at + 2 > data.len() ==> crate::tiff::u16_at(e, data, at) is None,
        at + 4 > data.len() ==> crate::tiff::u32_at(e, data, at) is None,
{
    if short_at(e, data, at, v) {
        lemma_short(e, data, at, v);
    }
    if long_at(e, data, at, w) {
        lemma_long(e, data, at, w);
    }
}

proof fn lemma_entry(e: Endian, data: Seq<u8>, at: int, x: Entry)
    requires
        entry_at(e, data, at, x),
    ensures
        crate::tiff::u16_at(e, data, at) == Some(x.tag),
        crate::tiff::entry_scalar(e, data, at) == x.field.number(),
{
    lemma_short(e, data, at, x.tag);
    match x.field {
        Field::Short(v) => {
            lemma_short(e, data, at + 2, 3);
            lemma_short(e, data, at + 8, v);
        },
        Field::Long(v) => {
            lemma_short(e, data, at + 2, 4);
            lemma_long(e, data, at + 8, v);
        },
        Field::Other(kind) => lemma_short(e, data, at + 2, kind),
    }
}

/// What the first `n` entries give `tag`.
spec fn given(entries: Seq<Entry>, n: nat, tag: u16) -> Option<u32>
    decreases n,
{
    if n == 0 {
        None
    } else if entries[n - 1].tag == tag && entries[n - 1].field.number() is Some {
        entries[n - 1].field.number()
    } else {
        given(entries, (n - 1) as nat, tag)
    }
}

proof fn lemma_given(entries: Seq<Entry>, n: nat, tag: u16)
    requires
        n <= entries.len(),
    ensures
        given(entries, n, tag) matches Some(v) ==> declares(entries.take(n as int), tag, v),
        given(entries, n, tag) is None ==> silent(entries.take(n as int), tag),
    decreases n,
{
    if n > 0 {
        let k = (n - 1) as nat;
        lemma_given(entries, k, tag);
        let (all, init) = (entries.take(n as int), entries.take(k as int));
        assert(forall|i: int| 0 <= i < k ==> #[trigger] all[i] == init[i]);
        assert(all[k as int] == entries[k as int]);
        if entries[k as int].tag == tag && entries[k as int].field.number() is Some {
            let v = entries[k as int].field.number()->0;
            assert(declares(all, tag, v)) by {
                assert(all[k as int].tag == tag);
            }
        } else if given(entries, k, tag) is Some {
            let v = given(entries, k, tag)->0;
            let i = choose|i: int|
                {
                    &&& 0 <= i < init.len()
                    &&& (#[trigger] init[i]).tag == tag
                    &&& init[i].field.number() == Some(v)
                    &&& forall|j: int|
                        i < j < init.len() && (#[trigger] init[j]).tag == tag
                            ==> init[j].field.number() is None
                };
            assert(all[i].tag == tag);
            assert forall|j: int| i < j < all.len() && (#[trigger] all[j]).tag == tag implies
                all[j].field.number() is None by {
                if j < k {
                    assert(init[j].tag == tag);
                }
            }
            assert(declares(all, tag, v));
        }
    }
}

/// A tag has one value at most.
proof fn lemma_declared(entries: Seq<Entry>, tag: u16)
    ensures
        forall|v: u32| #[trigger]
            declares(entries, tag, v) ==> given(entries, entries.len(), tag) == Some(v),
        silent(entries, tag) ==> given(entries, entries.len(), tag) is None,
        given(entries, entries.len(), tag) matches Some(v) ==> declares(entries, tag, v),
        given(entries, entries.len(), tag) is None ==> silent(entries, tag),
{
    let n = entries.len();
    lemma_given(entries, n, tag);
    assert(entries.take(n as int) == entries);
    let g = given(entries, n, tag);
    assert forall|v: u32| #[trigger] declares(entries, tag, v) implies g == Some(v) by {
        let i = choose|i: int|
            {
                &&& 0 <= i < entries.len()
                &&& (#[trigger] entries[i]).tag == tag
                &&& entries[i].field.number() == Some(v)
                &&& forall|j: int|
                    i < j < entries.len() && (#[trigger] entries[j]).tag == tag
                        ==> entries[j].field.number() is None
            };
        if let Some(w) = g {
            let j = choose|i: int|
                {
                    &&& 0 <= i < entries.len()
                    &&& (#[trigger] entries[i]).tag == tag
                    &&& entries[i].field.number() == Some(w)
                    &&& forall|j: int|
                        i < j < entries.len() && (#[trigger] entries[j]).tag == tag
                            ==> entries[j].field.number() is None
                };
            assert(entries[i].tag == tag && entries[j].tag == tag);
        }
    }
    if silent(entries, tag) {
        if let Some(w) = g {
            let j = choose|i: int|
                {
                    &&& 0 <= i < entries.len()
                    &&& (#[trigger] entries[i]).tag == tag
                    &&& entries[i].field.number() == Some(w)
                    &&& forall|j: int|
                        i < j < entries.len() && (#[trigger] entries[j]).tag == tag
                            ==> entries[j].field.number() is None
                };
            assert(entries[j].tag == tag);
        }
    }
}

proof fn lemma_scalars(e: Endian, data: Seq<u8>, d: Directory, n: nat, tag: u16)
    requires
        has_directory(e, data, d),
        n <= d.entries.len(),
    ensures
        crate::tiff::last_scalar(e, data, d.at as int, n, tag) == given(d.entries, n, tag),
    decreases n,
{
    if n > 0 {
        lemma_scalars(e, data, d, (n - 1) as nat, tag);
        lemma_entry(e, data, d.at + 2 + 12 * (n - 1), d.entries[n - 1]);
    }
}

proof fn lemma_size(e: Endian, data: Seq<u8>, d: Directory)
    requires
        has_directory(e, data, d),
    ensures
        crate::tiff::u16_at(e, data, d.at as int) == Some(d.entries.len() as u16),
        crate::tiff::whole_entries(data, d.at as int, d.entries.len() as u16) == d.entries.len(),
        crate::tiff::u32_at(
            e,
            data,
            crate::tiff::entry_pos(d.at as int, d.entries.len() as int),
        ) == Some(d.link),
{
    lemma_short(e, data, d.at as int, d.entries.len() as u16);
    lemma_long(e, data, d.at + 2 + 12 * d.entries.len(), d.link);
}

/// `q` starts with all of `p`.
spec fn grows(p: Seq<Preview>, q: Seq<Preview>) -> bool {
    p.len() <= q.len() && forall|i: int| 0 <= i < p.len() ==> #[trigger] q[i] == p[i]
}

proof fn lemma_walk_grows(
    e: Endian,
    data: Seq<u8>,
    off: int,
    n: nat,
    left: nat,
    info: TiffFacts,
)
    ensures
        grows(info.previews, crate::tiff::walk(e, data, off, n, left, info).0.previews),
    decreases left, 0int, n,
{
    if n > 0 {
        lemma_walk_grows(e, data, off, (n - 1) as nat, left, info);
        let (before, rest) = crate::tiff::walk(e, data, off, (n - 1) as nat, left, info);
        let at = crate::tiff::entry_pos(off, n - 1);
        if let (Some(tag), Some(v)) = (
            crate::tiff::u16_at(e, data, at),
            crate::tiff::entry_scalar(e, data, at),
        ) {
            if 0 < rest <= left {
                lemma_ifd_grows(e, data, v as int, (rest - 1) as nat, before);
            }
        }
    }
}

proof fn lemma_ifd_grows(e: Endian, data: Seq<u8>, off: int, left: nat, info: TiffFacts)
    ensures
        grows(info.previews, crate::tiff::ifd(e, data, off, left, info).0.previews),
    decreases left, 1int, 0nat,
{
    if let Some(count) = crate::tiff::u16_at(e, data, off) {
        let n = crate::tiff::whole_entries(data, off, count);
        lemma_walk_grows(e, data, off, n, left, info);
    }
}

proof fn lemma_chain_grows(
    e: Endian,
    data: Seq<u8>,
    next: u32,
    seen: Seq<usize>,
    left: nat,
    info: TiffFacts,
)
    ensures
        grows(info.previews, crate::tiff::chain(e, data, next, seen, left, info).previews),
    decreases left,
{
    if !(left == 0 || next == 0 || seen.contains(next as usize)) {
        let all = crate::tiff::MAX_EXIF_IFDS as nat;
        lemma_ifd_grows(e, data, next as int, all, info);
        let (after, link, _) = crate::tiff::ifd(e, data, next as int, all, info);
        if let Some(l) = link {
            lemma_chain_grows(e, data, l, seen.push(next as usize), (left - 1) as nat, after);
        }
    }
}

/// The preview that a directory points at, if it does.
spec fn pointed(data: Seq<u8>, entries: Seq<Entry>) -> Option<Preview> {
    let n = entries.len();
    let v = match given(entries, n, 0x0112) {
        Some(v) => v as int % 0x1_0000,
        None => 0,
    };
    match (given(entries, n, 0x0201), given(entries, n, 0x0202)) {
        (Some(o), Some(l)) => if jpeg_at(data, o as int, l as int) {
            Some(
                Preview {
                    offset: o as usize,
                    len: l as usize,
                    width: match given(entries, n, 0x0100) {
                        Some(w) => w,
                        None => 0,
                    },
                    height: match given(entries, n, 0x0101) {
                        Some(h) => h,
                        None => 0,
                    },
                    orientation: if 1 <= v <= 8 {
                        v as u16
                    } else {
                        1
                    },
                },
            )
        } else {
            None
        },
        _ => None,
    }
}

proof fn lemma_pointed(data: Seq<u8>, entries: Seq<Entry>, o: u32, l: u32)
    requires
        points_at_jpeg(data, entries, o, l),
    ensures
        pointed(data, entries) is Some,
        describes(entries, o, l, pointed(data, entries)->0),
{
    lemma_declared(entries, 0x0201);
    lemma_declared(entries, 0x0202);
    lemma_declared(entries, 0x0100);
    lemma_declared(entries, 0x0101);
    lemma_declared(entries, 0x0112);
}

proof fn lemma_directory(
    e: Endian,
    data: Seq<u8>,
    d: Directory,
    left: nat,
    info: TiffFacts,
)
    requires
        has_directory(e, data, d),
    ensures
        ({
            let n = d.entries.len();
            let (walked, rest) = crate::tiff::walk(e, data, d.at as int, n, left, info);
            let v = match given(d.entries, n, 0x0112) {
                Some(v) => (v as int % 0x1_0000) as u16,
                None => 0,
            };
            let (after, link, more) = crate::tiff::ifd(e, data, d.at as int, left, info);
            &&& after == crate::tiff::ifd_finished(walked, v, pointed(data, d.entries))
            &&& link == Some(d.link)
            &&& more == rest
        }),
{
    let n = d.entries.len();
    lemma_size(e, data, d);
    lemma_scalars(e, data, d, n, 0x0112);
    lemma_scalars(e, data, d, n, 0x0201);
    lemma_scalars(e, data, d, n, 0x0202);
    lemma_scalars(e, data, d, n, 0x0100);
    lemma_scalars(e, data, d, n, 0x0101);
}

/// The offsets of the first `n` directories.
spec fn places(dirs: Seq<Directory>, n: int) -> Seq<usize> {
    Seq::new(n as nat, |k: int| dirs[k].at as usize)
}

/// Where in the list the preview of directory `k` ends up.
proof fn lemma_found(
    e: Endian,
    data: Seq<u8>,
    dirs: Seq<Directory>,
    from: int,
    left: nat,
    info: TiffFacts,
    k: int,
    o: u32,
    l: u32,
) -> (q: int)
    requires
        has_chain(e, data, dirs),
        0 <= from <= k < dirs.len(),
        left + from >= dirs.len(),
        points_at_jpeg(data, dirs[k].entries, o, l),
    ensures
        ({
            let all = crate::tiff::chain(
                e,
                data,
                dirs[from].at,
                places(dirs, from),
                left,
                info,
            ).previews;
            &&& grows(info.previews, all)
            &&& info.previews.len() <= q < all.len()
            &&& describes(dirs[k].entries, o, l, all[q])
        }),
    decreases k - from,
{
    let d = dirs[from];
    let seen = places(dirs, from);
    lemma_fresh(e, data, dirs, from);
    let full = crate::tiff::MAX_EXIF_IFDS as nat;
    lemma_directory(e, data, d, full, info);
    lemma_walk_grows(e, data, d.at as int, d.entries.len(), full, info);
    lemma_chain_grows(e, data, d.at, seen, left, info);
    let (after, link, _) = crate::tiff::ifd(e, data, d.at as int, full, info);
    lemma_chain_grows(e, data, d.link, seen.push(d.at as usize), (left - 1) as nat, after);
    if from == k {
        lemma_pointed(data, d.entries, o, l);
        let q = after.previews.len() - 1;
        assert(after.previews[q] == pointed(data, d.entries)->0);
        q
    } else {
        lemma_found(e, data, dirs, from + 1, (left - 1) as nat, after, k, o, l)
    }
}

proof fn lemma_found_in_order(
    e: Endian,
    data: Seq<u8>,
    dirs: Seq<Directory>,
    from: int,
    left: nat,
    info: TiffFacts,
    k: int,
    o: u32,
    l: u32,
    m: int,
    o2: u32,
    l2: u32,
) -> (r: (int, int))
    requires
        has_chain(e, data, dirs),
        0 <= from <= k < m < dirs.len(),
        left + from >= dirs.len(),
        points_at_jpeg(data, dirs[k].entries, o, l),
        points_at_jpeg(data, dirs[m].entries, o2, l2),
    ensures
        ({
            let all = crate::tiff::chain(
                e,
                data,
                dirs[from].at,
                places(dirs, from),
                left,
                info,
            ).previews;
            &&& 0 <= r.0 < r.1 < all.len()
            &&& describes(dirs[k].entries, o, l, all[r.0])
            &&& describes(dirs[m].entries, o2, l2, all[r.1])
        }),
    decreases k - from,
{
    let d = dirs[from];
    let seen = places(dirs, from);
    lemma_fresh(e, data, dirs, from);
    let full = crate::tiff::MAX_EXIF_IFDS as nat;
    lemma_directory(e, data, d, full, info);
    let (after, link, _) = crate::tiff::ifd(e, data, d.at as int, full, info);
    assert(d.link == dirs[from + 1].at);
    assert(seen.push(d.at as usize) == places(dirs, from + 1));
    if from == k {
        lemma_pointed(data, d.entries, o, l);
        let q = after.previews.len() - 1;
        assert(after.previews[q] == pointed(data, d.entries)->0);
        let q2 = lemma_found(e, data, dirs, from + 1, (left - 1) as nat, after, m, o2, l2);
        (q, q2)
    } else {
        lemma_found_in_order(
            e,
            data,
            dirs,
            from + 1,
            (left - 1) as nat,
            after,
            k,
            o,
            l,
            m,
            o2,
            l2,
        )
    }
}

/// What a stream says before anything has been read.
spec fn blank() -> TiffFacts {
    TiffFacts { orientation: 1, previews: Seq::empty(), color_space: None }
}

proof fn lemma_header(e: Endian, data: Seq<u8>, first: u32)
    requires
        has_header(e, data, first),
    ensures
        crate::tiff::spec_parse(data) == Some(
            crate::tiff::chain(e, data, first, Seq::empty(), 16, blank()),
        ),
{
    lemma_short(e, data, 2, 42);
    lemma_long(e, data, 4, first);
}

/// A stream is read if, and only if, it opens with `II` and 42 in little-endian order, or with
/// `MM` and 42 in big-endian order, and has room for the offset that follows.
pub proof fn law_both_byte_orders_are_read(data: Seq<u8>)
    ensures
        crate::tiff::spec_parse(data) is Some <==> data.len() >= 8 && {
            ||| data[0] == 0x49 && data[1] == 0x49 && data[2] == 0x2A && data[3] == 0
            ||| data[0] == 0x4D && data[1] == 0x4D && data[2] == 0 && data[3] == 0x2A
        },
{
}

/// Every directory along the chain is read, in either byte order: the JPEG that any of them
/// points at is among the previews, with the size and the orientation that it says.
pub proof fn law_every_directory_of_the_chain_is_read(
    e: Endian,
    data: Seq<u8>,
    dirs: Seq<Directory>,
    k: int,
    o: u32,
    l: u32,
)
    requires
        has_chain(e, data, dirs),
        0 <= k < dirs.len(),
        points_at_jpeg(data, dirs[k].entries, o, l),
    ensures
        crate::tiff::spec_parse(data) is Some,
        exists|q: int|
            0 <= q < crate::tiff::spec_parse(data)->0.previews.len() && describes(
                dirs[k].entries,
                o,
                l,
                #[trigger] crate::tiff::spec_parse(data)->0.previews[q],
            ),
{
    lemma_header(e, data, dirs[0].at);
    assert(places(dirs, 0) == Seq::<usize>::empty());
    let q = lemma_found(e, data, dirs, 0, 16, blank(), k, o, l);
    let all = crate::tiff::spec_parse(data)->0.previews;
    assert(describes(dirs[k].entries, o, l, all[q]));
}

/// The previews come in the order of the directories that point at them.
pub proof fn law_previews_come_in_chain_order(
    e: Endian,
    data: Seq<u8>,
    dirs: Seq<Directory>,
    k: int,
    o: u32,
    l: u32,
    m: int,
    o2: u32,
    l2: u32,
)
    requires
        has_chain(e, data, dirs),
        0 <= k < m < dirs.len(),
        points_at_jpeg(data, dirs[k].entries, o, l),
        points_at_jpeg(data, dirs[m].entries, o2, l2),
    ensures
        exists|p: int, q: int|
            0 <= p < q < crate::tiff::spec_parse(data)->0.previews.len() && describes(
                dirs[k].entries,
                o,
                l,
                #[trigger] crate::tiff::spec_parse(data)->0.previews[p],
            ) && describes(
                dirs[m].entries,
                o2,
                l2,
                #[trigger] crate::tiff::spec_parse(data)->0.previews[q],
            ),
{
    lemma_header(e, data, dirs[0].at);
    assert(places(dirs, 0) == Seq::<usize>::empty());
    let (p, q) = lemma_found_in_order(
        e,
        data,
        dirs,
        0,
        16,
        blank(),
        k,
        o,
        l,
        m,
        o2,
        l2,
    );
    let all = crate::tiff::spec_parse(data)->0.previews;
    assert(describes(dirs[k].entries, o, l, all[p]));
    assert(describes(dirs[m].entries, o2, l2, all[q]));
}

/// A directory without EXIF pointers (0x8769) leaves everything but the colour space as it was
/// until its end, and reads no further directory.
proof fn lemma_plain_walk(
    e: Endian,
    data: Seq<u8>,
    d: Directory,
    n: nat,
    left: nat,
    info: TiffFacts,
)
    requires
        has_directory(e, data, d),
        n <= d.entries.len(),
        silent(d.entries, 0x8769),
    ensures
        crate::tiff::walk(e, data, d.at as int, n, left, info) == (
            TiffFacts {
                color_space: match given(d.entries, n, 0xA001) {
                    Some(c) => Some(crate::tiff::color_space_of(c)),
                    None => info.color_space,
                },
                ..info
            },
            left,
        ),
    decreases n,
{
    if n > 0 {
        lemma_plain_walk(e, data, d, (n - 1) as nat, left, info);
        lemma_entry(e, data, d.at + 2 + 12 * (n - 1), d.entries[n - 1]);
        assert(d.entries[n - 1].tag == 0x8769 ==> d.entries[n - 1].field.number() is None);
    }
}

/// The chain ends with its last directory: it links to none, or back to one that was read, or is
/// the last that is followed.
pub open spec fn ends(dirs: Seq<Directory>) -> bool {
    ||| dirs.last().link == 0
    ||| exists|k: int| 0 <= k < dirs.len() && (#[trigger] dirs[k]).at == dirs.last().link
    ||| dirs.len() == 16
}

proof fn lemma_only_pointed(
    e: Endian,
    data: Seq<u8>,
    dirs: Seq<Directory>,
    from: int,
    left: nat,
    info: TiffFacts,
    q: int,
) -> (r: (int, u32, u32))
    requires
        has_chain(e, data, dirs),
        ends(dirs),
        forall|k: int| 0 <= k < dirs.len() ==> silent((#[trigger] dirs[k]).entries, 0x8769),
        0 <= from < dirs.len(),
        left + from == 16,
        ({
            let all = crate::tiff::chain(
                e,
                data,
                dirs[from].at,
                places(dirs, from),
                left,
                info,
            ).previews;
            info.previews.len() <= q < all.len()
        }),
    ensures
        crate::tiff::chain(
            e,
            data,
            dirs[from].at,
            places(dirs, from),
            left,
            info,
        ).previews.len() <= info.previews.len() + dirs.len() - from,
        ({
            let all = crate::tiff::chain(
                e,
                data,
                dirs[from].at,
                places(dirs, from),
                left,
                info,
            ).previews;
            let (k, o, l) = r;
            &&& 0 <= k < dirs.len()
            &&& points_at_jpeg(data, dirs[k].entries, o, l)
            &&& describes(dirs[k].entries, o, l, all[q])
        }),
    decreases dirs.len() - from,
{
    let d = dirs[from];
    let seen = places(dirs, from);
    lemma_fresh(e, data, dirs, from);
    let full = crate::tiff::MAX_EXIF_IFDS as nat;
    lemma_directory(e, data, d, full, info);
    lemma_plain_walk(e, data, d, d.entries.len(), full, info);
    let (after, link, _) = crate::tiff::ifd(e, data, d.at as int, full, info);
    lemma_chain_grows(e, data, d.link, seen.push(d.at as usize), (left - 1) as nat, after);
    if from + 1 == dirs.len() && d.link != 0 && left > 1 {
        let k = choose|k: int| 0 <= k < dirs.len() && (#[trigger] dirs[k]).at == d.link;
        assert(places(dirs, from + 1)[k] == d.link as usize);
    }
    if q < after.previews.len() {
        lemma_declared(d.entries, 0x0201);
        lemma_declared(d.entries, 0x0202);
        let n = d.entries.len();
        let (o, l) = (given(d.entries, n, 0x0201)->0, given(d.entries, n, 0x0202)->0);
        lemma_pointed(data, d.entries, o, l);
        if from + 1 < dirs.len() {
            lemma_few_previews(e, data, dirs, from + 1, (left - 1) as nat, after);
        }
        (from, o, l)
    } else {
        assert(from + 1 < dirs.len());
        lemma_only_pointed(e, data, dirs, from + 1, (left - 1) as nat, after, q)
    }
}

proof fn lemma_few_previews(
    e: Endian,
    data: Seq<u8>,
    dirs: Seq<Directory>,
    from: int,
    left: nat,
    info: TiffFacts,
)
    requires
        has_chain(e, data, dirs),
        ends(dirs),
        forall|k: int| 0 <= k < dirs.len() ==> silent((#[trigger] dirs[k]).entries, 0x8769),
        0 <= from < dirs.len(),
        left + from == 16,
    ensures
        crate::tiff::chain(
            e,
            data,
            dirs[from].at,
            places(dirs, from),
            left,
            info,
        ).previews.len() <= info.previews.len() + dirs.len() - from,
    decreases dirs.len() - from,
{
    let d = dirs[from];
    lemma_fresh(e, data, dirs, from);
    lemma_plain_directory(e, data, d, info);
    let full = crate::tiff::MAX_EXIF_IFDS as nat;
    let (after, link, _) = crate::tiff::ifd(e, data, d.at as int, full, info);
    let seen = places(dirs, from + 1);
    if from + 1 < dirs.len() {
        lemma_few_previews(e, data, dirs, from + 1, (left - 1) as nat, after);
    } else {
        if d.link != 0 && left > 1 {
            let k = choose|k: int| 0 <= k < dirs.len() && (#[trigger] dirs[k]).at == d.link;
            assert(seen[k] == d.link as usize);
        }
        assert(crate::tiff::chain(e, data, d.link, seen, (left - 1) as nat, after) == after);
    }
}

proof fn lemma_plain_directory(e: Endian, data: Seq<u8>, d: Directory, info: TiffFacts)
    requires
        has_directory(e, data, d),
        silent(d.entries, 0x8769),
    ensures
        ({
            let full = crate::tiff::MAX_EXIF_IFDS as nat;
            let (after, link, _) = crate::tiff::ifd(e, data, d.at as int, full, info);
            &&& link == Some(d.link)
            &&& after.previews.len() <= info.previews.len() + 1
            &&& after.color_space == (match given(d.entries, d.entries.len(), 0xA001) {
                Some(c) => Some(crate::tiff::color_space_of(c)),
                None => info.color_space,
            })
            &&& info.orientation == 1 ==> after.orientation == (match given(
                d.entries,
                d.entries.len(),
                0x0112,
            ) {
                Some(v) => if 1 <= v as int % 0x1_0000 <= 8 {
                    v as int % 0x1_0000
                } else {
                    1
                },
                None => 1,
            })
        }),
{
    let full = crate::tiff::MAX_EXIF_IFDS as nat;
    lemma_directory(e, data, d, full, info);
    lemma_plain_walk(e, data, d, d.entries.len(), full, info);
}

/// Nothing is a preview that no directory points at, and no directory is read twice. (Directories behind EXIF pointers may point
/// at JPEGs too, so there are none here.)
pub proof fn law_nothing_else_is_a_preview(
    e: Endian,
    data: Seq<u8>,
    dirs: Seq<Directory>,
    q: int,
)
    requires
        has_chain(e, data, dirs),
        ends(dirs),
        forall|k: int| 0 <= k < dirs.len() ==> silent((#[trigger] dirs[k]).entries, 0x8769),
        0 <= q < crate::tiff::spec_parse(data)->0.previews.len(),
    ensures
        crate::tiff::spec_parse(data)->0.previews.len() <= dirs.len(),
        exists|k: int, o: u32, l: u32|
            0 <= k < dirs.len() && points_at_jpeg(data, dirs[k].entries, o, l)
                && #[trigger] describes(
                dirs[k].entries,
                o,
                l,
                crate::tiff::spec_parse(data)->0.previews[q],
            ),
{
    lemma_header(e, data, dirs[0].at);
    assert(places(dirs, 0) == Seq::<usize>::empty());
    let (k, o, l) = lemma_only_pointed(e, data, dirs, 0, 16, blank(), q);
    assert(describes(dirs[k].entries, o, l, crate::tiff::spec_parse(data)->0.previews[q]));
}

/// The directories stand in both streams, in the byte order of each; every offset that one of
/// them gives leads to another of them; and where they point, both have a JPEG or neither has.
pub open spec fn same_content(
    e: Endian,
    data: Seq<u8>,
    f: Endian,
    other: Seq<u8>,
    dirs: Seq<Directory>,
) -> bool {
    &&& forall|c: int|
        0 <= c < dirs.len() ==> has_directory(e, data, #[trigger] dirs[c]) && has_directory(
            f,
            other,
            dirs[c],
        )
    &&& forall|c: int|
        0 <= c < dirs.len() ==> (#[trigger] dirs[c]).link == 0 || exists|b: int|
            0 <= b < dirs.len() && (#[trigger] dirs[b]).at == dirs[c].link
    &&& forall|c: int, i: int|
        0 <= c < dirs.len() && 0 <= i < dirs[c].entries.len() && (
        #[trigger] dirs[c].entries[i]).tag == 0x8769 && dirs[c].entries[i].field.number() is Some
            ==> exists|b: int|
            0 <= b < dirs.len() && (#[trigger] dirs[b]).at == dirs[c].entries[i].field.number()->0
    &&& forall|c: int, o: u32, l: u32|
        0 <= c < dirs.len() && #[trigger] declares(dirs[c].entries, 0x0201, o)
            && #[trigger] declares(dirs[c].entries, 0x0202, l) ==> jpeg_at(
            data,
            o as int,
            l as int,
        ) == jpeg_at(other, o as int, l as int)
}

proof fn lemma_same_walk(
    e: Endian,
    data: Seq<u8>,
    f: Endian,
    other: Seq<u8>,
    dirs: Seq<Directory>,
    c: int,
    n: nat,
    left: nat,
    info: TiffFacts,
)
    requires
        same_content(e, data, f, other, dirs),
        0 <= c < dirs.len(),
        n <= dirs[c].entries.len(),
    ensures
        crate::tiff::walk(e, data, dirs[c].at as int, n, left, info) == crate::tiff::walk(
            f,
            other,
            dirs[c].at as int,
            n,
            left,
            info,
        ),
    decreases left, 0int, n,
{
    if n > 0 {
        lemma_same_walk(e, data, f, other, dirs, c, (n - 1) as nat, left, info);
        let at = dirs[c].at + 2 + 12 * (n - 1);
        let x = dirs[c].entries[n - 1];
        assert(has_directory(e, data, dirs[c]));
        lemma_entry(e, data, at, x);
        lemma_entry(f, other, at, x);
        let (before, rest) = crate::tiff::walk(
            e,
            data,
            dirs[c].at as int,
            (n - 1) as nat,
            left,
            info,
        );
        if x.tag == 0x8769 && x.field.number() is Some && 0 < rest <= left {
            let b = choose|b: int|
                0 <= b < dirs.len() && (#[trigger] dirs[b]).at == x.field.number()->0;
            lemma_same_ifd(e, data, f, other, dirs, b, (rest - 1) as nat, before);
        }
    }
}

proof fn lemma_same_ifd(
    e: Endian,
    data: Seq<u8>,
    f: Endian,
    other: Seq<u8>,
    dirs: Seq<Directory>,
    c: int,
    left: nat,
    info: TiffFacts,
)
    requires
        same_content(e, data, f, other, dirs),
        0 <= c < dirs.len(),
    ensures
        crate::tiff::ifd(e, data, dirs[c].at as int, left, info) == crate::tiff::ifd(
            f,
            other,
            dirs[c].at as int,
            left,
            info,
        ),
    decreases left, 1int, 0nat,
{
    let d = dirs[c];
    assert(has_directory(e, data, d));
    lemma_same_walk(e, data, f, other, dirs, c, d.entries.len(), left, info);
    lemma_directory(e, data, d, left, info);
    lemma_directory(f, other, d, left, info);
    lemma_declared(d.entries, 0x0201);
    lemma_declared(d.entries, 0x0202);
}

proof fn lemma_same_chain(
    e: Endian,
    data: Seq<u8>,
    f: Endian,
    other: Seq<u8>,
    dirs: Seq<Directory>,
    c: int,
    seen: Seq<usize>,
    left: nat,
    info: TiffFacts,
)
    requires
        same_content(e, data, f, other, dirs),
        0 <= c < dirs.len(),
    ensures
        crate::tiff::chain(e, data, dirs[c].at, seen, left, info) == crate::tiff::chain(
            f,
            other,
            dirs[c].at,
            seen,
            left,
            info,
        ),
    decreases left,
{
    let d = dirs[c];
    if !(left == 0 || d.at == 0 || seen.contains(d.at as usize)) {
        let full = crate::tiff::MAX_EXIF_IFDS as nat;
        lemma_same_ifd(e, data, f, other, dirs, c, full, info);
        assert(has_directory(e, data, d));
        lemma_directory(e, data, d, full, info);
        let (after, link, _) = crate::tiff::ifd(e, data, d.at as int, full, info);
        if d.link != 0 {
            let b = choose|b: int| 0 <= b < dirs.len() && (#[trigger] dirs[b]).at == d.link;
            lemma_same_chain(
                e,
                data,
                f,
                other,
                dirs,
                b,
                seen.push(d.at as usize),
                (left - 1) as nat,
                after,
            );
        } else {
            let next = seen.push(d.at as usize);
            assert(crate::tiff::chain(e, data, 0, next, (left - 1) as nat, after) == after);
            assert(crate::tiff::chain(f, other, 0, next, (left - 1) as nat, after) == after);
        }
    }
}

/// The byte order makes no difference: two streams that hold the same directories, each in its
/// own byte order, say the same.
pub proof fn law_byte_order_makes_no_difference(
    e: Endian,
    data: Seq<u8>,
    f: Endian,
    other: Seq<u8>,
    dirs: Seq<Directory>,
    first: int,
)
    requires
        same_content(e, data, f, other, dirs),
        0 <= first < dirs.len(),
        has_header(e, data, dirs[first].at),
        has_header(f, other, dirs[first].at),
    ensures
        crate::tiff::spec_parse(data) is Some,
        crate::tiff::spec_parse(data) == crate::tiff::spec_parse(other),
{
    lemma_header(e, data, dirs[first].at);
    lemma_header(f, other, dirs[first].at);
    lemma_same_chain(e, data, f, other, dirs, first, Seq::empty(), 16, blank());
}

/// Every EXIF pointer of the entries leads to one of `subs`.
pub open spec fn leads_to(entries: Seq<Entry>, subs: Seq<Directory>) -> bool {
    forall|i: int|
        0 <= i < entries.len() && (#[trigger] entries[i]).tag == 0x8769
            && entries[i].field.number() is Some ==> exists|b: int|
            0 <= b < subs.len() && (#[trigger] subs[b]).at == entries[i].field.number()->0
}

/// The directories stand in the data, lead no further and give none of the tags in `quiet`.
pub open spec fn leaves(e: Endian, data: Seq<u8>, subs: Seq<Directory>, quiet: u16) -> bool {
    forall|b: int|
        0 <= b < subs.len() ==> has_directory(e, data, #[trigger] subs[b]) && silent(
            subs[b].entries,
            0x8769,
        ) && silent(subs[b].entries, quiet)
}

proof fn lemma_unturned_walk(
    e: Endian,
    data: Seq<u8>,
    d: Directory,
    subs: Seq<Directory>,
    n: nat,
    left: nat,
    info: TiffFacts,
)
    requires
        has_directory(e, data, d),
        n <= d.entries.len(),
        leads_to(d.entries, subs),
        leaves(e, data, subs, 0x0112),
    ensures
        crate::tiff::walk(e, data, d.at as int, n, left, info).0.orientation == info.orientation,
    decreases n,
{
    if n > 0 {
        lemma_unturned_walk(e, data, d, subs, (n - 1) as nat, left, info);
        let x = d.entries[n - 1];
        lemma_entry(e, data, d.at + 2 + 12 * (n - 1), x);
        let (before, rest) = crate::tiff::walk(e, data, d.at as int, (n - 1) as nat, left, info);
        if x.tag == 0x8769 && x.field.number() is Some && 0 < rest <= left {
            let b = choose|b: int|
                0 <= b < subs.len() && (#[trigger] subs[b]).at == x.field.number()->0;
            let s = subs[b];
            assert(has_directory(e, data, s));
            lemma_directory(e, data, s, (rest - 1) as nat, before);
            lemma_plain_walk(e, data, s, s.entries.len(), (rest - 1) as nat, before);
            lemma_declared(s.entries, 0x0112);
        }
    }
}

proof fn lemma_turned_chain(
    e: Endian,
    data: Seq<u8>,
    next: u32,
    seen: Seq<usize>,
    left: nat,
    info: TiffFacts,
)
    requires
        info.orientation > 1,
    ensures
        crate::tiff::chain(e, data, next, seen, left, info).orientation == info.orientation,
    decreases left,
{
    if !(left == 0 || next == 0 || seen.contains(next as usize)) {
        let full = crate::tiff::MAX_EXIF_IFDS as nat;
        lemma_turned_ifd(e, data, next as int, full, info);
        let (after, link, _) = crate::tiff::ifd(e, data, next as int, full, info);
        if let Some(l) = link {
            lemma_turned_chain(e, data, l, seen.push(next as usize), (left - 1) as nat, after);
        }
    }
}

proof fn lemma_turned_walk(
    e: Endian,
    data: Seq<u8>,
    off: int,
    n: nat,
    left: nat,
    info: TiffFacts,
)
    requires
        info.orientation > 1,
    ensures
        crate::tiff::walk(e, data, off, n, left, info).0.orientation == info.orientation,
    decreases left, 0int, n,
{
    if n > 0 {
        lemma_turned_walk(e, data, off, (n - 1) as nat, left, info);
        let (before, rest) = crate::tiff::walk(e, data, off, (n - 1) as nat, left, info);
        let at = crate::tiff::entry_pos(off, n - 1);
        if let (Some(tag), Some(v)) = (
            crate::tiff::u16_at(e, data, at),
            crate::tiff::entry_scalar(e, data, at),
        ) {
            if 0 < rest <= left {
                lemma_turned_ifd(e, data, v as int, (rest - 1) as nat, before);
            }
        }
    }
}

proof fn lemma_turned_ifd(e: Endian, data: Seq<u8>, off: int, left: nat, info: TiffFacts)
    requires
        info.orientation > 1,
    ensures
        crate::tiff::ifd(e, data, off, left, info).0.orientation == info.orientation,
    decreases left, 1int, 0nat,
{
    if let Some(count) = crate::tiff::u16_at(e, data, off) {
        let n = crate::tiff::whole_entries(data, off, count);
        lemma_turned_walk(e, data, off, n, left, info);
    }
}

proof fn lemma_unturned_directory(
    e: Endian,
    data: Seq<u8>,
    d: Directory,
    subs: Seq<Directory>,
    left: nat,
    info: TiffFacts,
)
    requires
        has_directory(e, data, d),
        leads_to(d.entries, subs),
        leaves(e, data, subs, 0x0112),
        info.orientation == 1,
    ensures
        ({
            let (after, link, _) = crate::tiff::ifd(e, data, d.at as int, left, info);
            &&& link == Some(d.link)
            &&& silent(d.entries, 0x0112) ==> after.orientation == 1
            &&& forall|v: u32| #[trigger]
                declares(d.entries, 0x0112, v) && 1 <= v <= 8 ==> after.orientation == v
        }),
{
    lemma_directory(e, data, d, left, info);
    lemma_unturned_walk(e, data, d, subs, d.entries.len(), left, info);
    lemma_declared(d.entries, 0x0112);
}

proof fn lemma_fresh(e: Endian, data: Seq<u8>, dirs: Seq<Directory>, from: int)
    requires
        has_chain(e, data, dirs),
        0 <= from < dirs.len(),
    ensures
        !places(dirs, from).contains(dirs[from].at as usize),
        places(dirs, from).push(dirs[from].at as usize) == places(dirs, from + 1),
        has_directory(e, data, dirs[from]),
        dirs[from].at != 0,
        from + 1 < dirs.len() ==> dirs[from].link == dirs[from + 1].at,
{
    let seen = places(dirs, from);
    let d = dirs[from];
    if seen.contains(d.at as usize) {
        let j = choose|j: int| 0 <= j < seen.len() && seen[j] == d.at as usize;
        assert(dirs[j].at != dirs[from].at);
    }
    assert(seen.push(d.at as usize) == places(dirs, from + 1));
    assert(d.at != 0);
    if from + 1 < dirs.len() {
        assert(d.link == dirs[from + 1].at);
    }
}

proof fn lemma_first_turn(
    e: Endian,
    data: Seq<u8>,
    dirs: Seq<Directory>,
    subs: Seq<Directory>,
    from: int,
    left: nat,
    info: TiffFacts,
    k: int,
    v: u32,
)
    requires
        has_chain(e, data, dirs),
        0 <= from <= k < dirs.len(),
        left + from >= dirs.len(),
        leaves(e, data, subs, 0x0112),
        forall|j: int| 0 <= j <= k ==> leads_to((#[trigger] dirs[j]).entries, subs),
        forall|j: int| 0 <= j < k ==> silent((#[trigger] dirs[j]).entries, 0x0112),
        declares(dirs[k].entries, 0x0112, v),
        2 <= v <= 8,
        info.orientation == 1,
    ensures
        crate::tiff::chain(
            e,
            data,
            dirs[from].at,
            places(dirs, from),
            left,
            info,
        ).orientation == v,
    decreases k - from,
{
    let d = dirs[from];
    let seen = places(dirs, from);
    lemma_fresh(e, data, dirs, from);
    assert(leads_to(d.entries, subs));
    let full = crate::tiff::MAX_EXIF_IFDS as nat;
    lemma_unturned_directory(e, data, d, subs, full, info);
    let (after, link, _) = crate::tiff::ifd(e, data, d.at as int, full, info);
    if from == k {
        assert(after.orientation == v);
        lemma_turned_chain(e, data, d.link, seen.push(d.at as usize), (left - 1) as nat, after);
    } else {
        assert(silent(d.entries, 0x0112));
        lemma_first_turn(e, data, dirs, subs, from + 1, (left - 1) as nat, after, k, v);
    }
}

/// The orientation of the file is that of the first directory that turns the image, in either
/// byte order, whatever the directories behind it say.
pub proof fn law_first_orientation_counts(
    e: Endian,
    data: Seq<u8>,
    dirs: Seq<Directory>,
    subs: Seq<Directory>,
    k: int,
    v: u32,
)
    requires
        has_chain(e, data, dirs),
        0 <= k < dirs.len(),
        leaves(e, data, subs, 0x0112),
        forall|j: int| 0 <= j <= k ==> leads_to((#[trigger] dirs[j]).entries, subs),
        forall|j: int| 0 <= j < k ==> silent((#[trigger] dirs[j]).entries, 0x0112),
        declares(dirs[k].entries, 0x0112, v),
        2 <= v <= 8,
    ensures
        crate::tiff::spec_parse(data) is Some,
        crate::tiff::spec_parse(data)->0.orientation == v,
{
    lemma_header(e, data, dirs[0].at);
    assert(places(dirs, 0) == Seq::<usize>::empty());
    lemma_first_turn(e, data, dirs, subs, 0, 16, blank(), k, v);
}

proof fn lemma_colour_walk(
    e: Endian,
    data: Seq<u8>,
    d: Directory,
    i: int,
    sub: Directory,
    c: u32,
    n: nat,
    left: nat,
    info: TiffFacts,
)
    requires
        has_directory(e, data, d),
        has_directory(e, data, sub),
        0 <= i < d.entries.len(),
        n <= d.entries.len(),
        left > 0,
        d.entries[i].tag == 0x8769,
        d.entries[i].field.number() == Some(sub.at),
        silent(d.entries, 0xA001),
        forall|j: int|
            0 <= j < d.entries.len() && j != i && (#[trigger] d.entries[j]).tag == 0x8769
                ==> d.entries[j].field.number() is None,
        silent(sub.entries, 0x8769),
        declares(sub.entries, 0xA001, c),
    ensures
        ({
            let (after, rest) = crate::tiff::walk(e, data, d.at as int, n, left, info);
            &&& n <= i ==> after == info && rest == left
            &&& n > i ==> after.color_space == Some(crate::tiff::color_space_of(c))
        }),
    decreases n,
{
    if n > 0 {
        lemma_colour_walk(e, data, d, i, sub, c, (n - 1) as nat, left, info);
        let x = d.entries[n - 1];
        lemma_entry(e, data, d.at + 2 + 12 * (n - 1), x);
        let (before, rest) = crate::tiff::walk(e, data, d.at as int, (n - 1) as nat, left, info);
        if n - 1 == i {
            lemma_directory(e, data, sub, (rest - 1) as nat, before);
            lemma_plain_walk(e, data, sub, sub.entries.len(), (rest - 1) as nat, before);
            lemma_declared(sub.entries, 0xA001);
        }
    }
}

/// The colour space stands in the directory that the EXIF pointer of the first one leads to, and
/// is found there in either byte order: 1 is sRGB, 2 is Adobe RGB, anything else is not known.
pub proof fn law_colour_space_is_found_behind_the_pointer(
    e: Endian,
    data: Seq<u8>,
    d: Directory,
    i: int,
    sub: Directory,
    c: u32,
)
    requires
        has_header(e, data, d.at),
        has_directory(e, data, d),
        has_directory(e, data, sub),
        d.at != 0,
        d.link == 0,
        0 <= i < d.entries.len(),
        d.entries[i].tag == 0x8769,
        d.entries[i].field.number() == Some(sub.at),
        silent(d.entries, 0xA001),
        forall|j: int|
            0 <= j < d.entries.len() && j != i && (#[trigger] d.entries[j]).tag == 0x8769
                ==> d.entries[j].field.number() is None,
        silent(sub.entries, 0x8769),
        declares(sub.entries, 0xA001, c),
    ensures
        crate::tiff::spec_parse(data) is Some,
        c == 1 ==> crate::tiff::spec_parse(data)->0.color_space == Some(ColorSpace::Srgb),
        c == 2 ==> crate::tiff::spec_parse(data)->0.color_space == Some(ColorSpace::AdobeRgb),
        c != 1 && c != 2 ==> crate::tiff::spec_parse(data)->0.color_space == Some(
            ColorSpace::Unknown,
        ),
{
    lemma_header(e, data, d.at);
    let full = crate::tiff::MAX_EXIF_IFDS as nat;
    lemma_directory(e, data, d, full, blank());
    lemma_colour_walk(e, data, d, i, sub, c, d.entries.len(), full, blank());
    let (after, link, _) = crate::tiff::ifd(e, data, d.at as int, full, blank());
    assert(crate::tiff::chain(e, data, 0, seq![d.at as usize], 15, after) == after);
    assert(Seq::<usize>::empty().push(d.at as usize) == seq![d.at as usize]);
}

proof fn lemma_single(e: Endian, data: Seq<u8>, d: Directory)
    requires
        has_header(e, data, d.at),
        has_directory(e, data, d),
        d.at != 0,
        d.link == 0,
    ensures
        crate::tiff::spec_parse(data) == Some(
            crate::tiff::ifd(
                e,
                data,
                d.at as int,
                crate::tiff::MAX_EXIF_IFDS as nat,
                blank(),
            ).0,
        ),
{
    lemma_header(e, data, d.at);
    let full = crate::tiff::MAX_EXIF_IFDS as nat;
    lemma_directory(e, data, d, full, blank());
    let (after, link, _) = crate::tiff::ifd(e, data, d.at as int, full, blank());
    let none = Seq::<usize>::empty();
    assert(crate::tiff::chain(e, data, 0, none.push(d.at as usize), 15, after) == after);
}

/// A chain in which nothing is said of orientation or colour leaves the image upright and its
/// colours unknown; a colour space in the chain itself is as good as one behind a pointer.
pub proof fn law_plain_directory_says_what_it_says(e: Endian, data: Seq<u8>, d: Directory)
    requires
        has_header(e, data, d.at),
        has_directory(e, data, d),
        d.at != 0,
        d.link == 0,
        silent(d.entries, 0x8769),
    ensures
        crate::tiff::spec_parse(data) is Some,
        silent(d.entries, 0x0112) ==> crate::tiff::spec_parse(data)->0.orientation == 1,
        forall|v: u32| #[trigger]
            declares(d.entries, 0x0112, v) && 1 <= v <= 8 ==> crate::tiff::spec_parse(
                data,
            )->0.orientation == v,
        silent(d.entries, 0xA001) ==> crate::tiff::spec_parse(data)->0.color_space is None,
        declares(d.entries, 0xA001, 1) ==> crate::tiff::spec_parse(data)->0.color_space == Some(
            ColorSpace::Srgb,
        ),
        declares(d.entries, 0xA001, 2) ==> crate::tiff::spec_parse(data)->0.color_space == Some(
            ColorSpace::AdobeRgb,
        ),
{
    lemma_single(e, data, d);
    lemma_plain_directory(e, data, d, blank());
    lemma_declared(d.entries, 0x0112);
    lemma_declared(d.entries, 0xA001);
}

/// A marker segment of a JPEG: APP1 is 0xE1, APP2 is 0xE2.
pub struct Part {
    pub marker: u8,
    pub payload: Seq<u8>,
}

impl Part {
    /// It has a length and a payload, and is not the scan: that is any marker but 0x01, 0xD0 to
    /// 0xD9 and 0xDA.
    pub open spec fn is_header(self) -> bool {
        self.marker != 0x01 && !(0xD0 <= self.marker <= 0xDA) && self.payload.len() <= 65533
    }

    /// It holds a TIFF stream: APP1, `Exif` and two zero bytes, then the stream.
    pub open spec fn exif(self) -> bool {
        let p = self.payload;
        &&& self.marker == 0xE1
        &&& p.len() >= 6
        &&& p[0] == 0x45 && p[1] == 0x78 && p[2] == 0x69 && p[3] == 0x66 && p[4] == 0 && p[5] == 0
    }

    /// It holds a chunk of an ICC profile: APP2, `ICC_PROFILE` and a zero byte, the number of
    /// the chunk and of all chunks, then the chunk.
    pub open spec fn icc(self) -> bool {
        let p = self.payload;
        &&& self.marker == 0xE2
        &&& p.len() >= 14
        &&& p[0] == 0x49 && p[1] == 0x43 && p[2] == 0x43 && p[3] == 0x5F && p[4] == 0x50 && p[5]
            == 0x52
        &&& p[6] == 0x4F && p[7] == 0x46 && p[8] == 0x49 && p[9] == 0x4C && p[10] == 0x45 && p[11]
            == 0
    }
}

/// The segments stand one after the other from `at` on: marker, length, which counts itself, and
/// payload. The scan follows.
pub open spec fn parts_at(data: Seq<u8>, at: int, parts: Seq<Part>) -> bool
    decreases parts.len(),
{
    if parts.len() == 0 {
        0 <= at && at + 2 <= data.len() && data[at] == 0xFF && data[at + 1] == 0xDA
    } else {
        let x = parts[0];
        let next = at + 4 + x.payload.len();
        &&& x.is_header()
        &&& 0 <= at && next <= data.len()
        &&& data[at] == 0xFF && data[at + 1] == x.marker
        &&& short_at(Endian::Big, data, at + 2, (x.payload.len() + 2) as u16)
        &&& data.subrange(at + 4, next) == x.payload
        &&& parts_at(data, next, parts.skip(1))
    }
}

/// A JPEG file with these segments ahead of its scan.
pub open spec fn has_parts(data: Seq<u8>, parts: Seq<Part>) -> bool {
    data.len() >= 2 && data[0] == 0xFF && data[1] == 0xD8 && parts_at(data, 2, parts)
}

proof fn lemma_segments(data: Seq<u8>, at: int, parts: Seq<Part>)
    requires
        parts_at(data, at, parts),
    ensures
        ({
            let segs = crate::tiff::segments(data, at);
            &&& segs.len() == parts.len()
            &&& forall|i: int|
                0 <= i < parts.len() ==> (#[trigger] segs[i]).marker == parts[i].marker
                    && segs[i].payload(data) == parts[i].payload
        }),
    decreases parts.len(),
{
    if parts.len() > 0 {
        let x = parts[0];
        let next = at + 4 + x.payload.len();
        lemma_segments(data, next, parts.skip(1));
        lemma_short(Endian::Big, data, at + 2, (x.payload.len() + 2) as u16);
        let segs = crate::tiff::segments(data, at);
        let rest = crate::tiff::segments(data, next);
        assert forall|i: int| 0 <= i < parts.len() implies (#[trigger] segs[i]).marker
            == parts[i].marker && segs[i].payload(data) == parts[i].payload by {
            if i > 0 {
                assert(segs[i] == rest[i - 1]);
                assert(parts.skip(1)[i - 1] == parts[i]);
            }
        }
    }
}

proof fn lemma_exif_of(data: Seq<u8>, s: crate::tiff::Segment, x: Part)
    requires
        s.marker == x.marker,
        s.payload(data) == x.payload,
    ensures
        crate::tiff::exif_of(data, s) == (if x.exif() {
            crate::tiff::spec_parse(x.payload.skip(6))
        } else {
            None
        }),
{
    let p = x.payload;
    let t = crate::tiff::exif_tag();
    if x.exif() {
        assert(t == p.subrange(0, 6));
    } else if s.marker == 0xE1 && t.is_prefix_of(p) {
        assert(t == p.subrange(0, 6));
        assert(p[0] == t[0] && p[1] == t[1] && p[2] == t[2] && p[3] == t[3] && p[4] == t[4] && p[5]
            == t[5]);
    }
    if p.len() >= 6 {
        assert(p.skip(6) == p.subrange(6, p.len() as int));
    }
}

proof fn lemma_last_exif_at(data: Seq<u8>, segs: Seq<crate::tiff::Segment>, k: int)
    requires
        0 <= k < segs.len(),
        crate::tiff::exif_of(data, segs[k]) is Some,
        forall|j: int|
            k < j < segs.len() ==> crate::tiff::exif_of(data, #[trigger] segs[j]) is None,
    ensures
        ({
            let t = crate::tiff::exif_of(data, segs[k])->0;
            crate::tiff::last_exif(data, segs) == (t.orientation, t.color_space)
        }),
    decreases segs.len(),
{
    if k < segs.len() - 1 {
        assert(crate::tiff::exif_of(data, segs[segs.len() - 1]) is None);
        let init = segs.drop_last();
        assert(forall|j: int| 0 <= j < init.len() ==> #[trigger] init[j] == segs[j]);
        lemma_last_exif_at(data, init, k);
    }
}

proof fn lemma_no_exif(data: Seq<u8>, segs: Seq<crate::tiff::Segment>)
    requires
        forall|j: int|
            0 <= j < segs.len() ==> crate::tiff::exif_of(data, #[trigger] segs[j]) is None,
    ensures
        crate::tiff::last_exif(data, segs) == (1u16, None::<ColorSpace>),
    decreases segs.len(),
{
    if segs.len() > 0 {
        let init = segs.drop_last();
        assert(crate::tiff::exif_of(data, segs[segs.len() - 1]) is None);
        assert(forall|j: int| 0 <= j < init.len() ==> #[trigger] init[j] == segs[j]);
        lemma_no_exif(data, init);
    }
}

/// A JPEG is turned, and its colours are, as the TIFF stream in its EXIF segment says, wherever
/// that segment stands ahead of the scan; of several, the last that can be read counts.
pub proof fn law_exif_segment_decides(data: Seq<u8>, parts: Seq<Part>, k: int)
    requires
        has_parts(data, parts),
        0 <= k < parts.len(),
        parts[k].exif(),
        crate::tiff::spec_parse(parts[k].payload.skip(6)) is Some,
        forall|j: int| k < j < parts.len() ==> !(#[trigger] parts[j]).exif(),
    ensures
        ({
            let t = crate::tiff::spec_parse(parts[k].payload.skip(6))->0;
            &&& crate::tiff::spec_jpeg_meta(data).orientation == t.orientation
            &&& crate::tiff::spec_jpeg_meta(data).color_space == t.color_space
        }),
{
    lemma_segments(data, 2, parts);
    let segs = crate::tiff::segments(data, 2);
    assert(segs[k].marker == parts[k].marker);
    lemma_exif_of(data, segs[k], parts[k]);
    assert forall|j: int| k < j < segs.len() implies crate::tiff::exif_of(
        data,
        #[trigger] segs[j],
    ) is None by {
        lemma_exif_of(data, segs[j], parts[j]);
    }
    lemma_last_exif_at(data, segs, k);
}

/// A JPEG without an EXIF segment is upright and of unknown colours; one without an ICC segment
/// has no profile; and what is no JPEG has neither.
pub proof fn law_bare_jpeg_is_upright(data: Seq<u8>, parts: Seq<Part>)
    ensures
        has_parts(data, parts) && (forall|j: int|
            0 <= j < parts.len() ==> !(#[trigger] parts[j]).exif()) ==> {
            &&& crate::tiff::spec_jpeg_meta(data).orientation == 1
            &&& crate::tiff::spec_jpeg_meta(data).color_space is None
        },
        has_parts(data, parts) && (forall|j: int|
            0 <= j < parts.len() ==> !(#[trigger] parts[j]).icc()) ==> crate::tiff::spec_jpeg_meta(
            data,
        ).icc is None,
        data.len() < 2 || data[0] != 0xFF || data[1] != 0xD8 ==> {
            &&& crate::tiff::spec_jpeg_meta(data).orientation == 1
            &&& crate::tiff::spec_jpeg_meta(data).color_space is None
            &&& crate::tiff::spec_jpeg_meta(data).icc is None
        },
{
    if has_parts(data, parts) {
        lemma_segments(data, 2, parts);
        let segs = crate::tiff::segments(data, 2);
        if forall|j: int| 0 <= j < parts.len() ==> !(#[trigger] parts[j]).exif() {
            assert forall|j: int| 0 <= j < segs.len() implies crate::tiff::exif_of(
                data,
                #[trigger] segs[j],
            ) is None by {
                lemma_exif_of(data, segs[j], parts[j]);
            }
            lemma_no_exif(data, segs);
        }
        if forall|j: int| 0 <= j < parts.len() ==> !(#[trigger] parts[j]).icc() {
            assert forall|j: int| 0 <= j < segs.len() implies !crate::tiff::is_icc_chunk(
                data,
                #[trigger] segs[j],
            ) by {
                lemma_icc(data, segs[j], parts[j]);
            }
        }
    }
}

proof fn lemma_icc(data: Seq<u8>, s: crate::tiff::Segment, x: Part)
    requires
        s.marker == x.marker,
        s.payload(data) == x.payload,
    ensures
        crate::tiff::is_icc_chunk(data, s) == x.icc(),
{
    let p = x.payload;
    let t = crate::tiff::icc_tag();
    if x.icc() {
        assert(t == p.subrange(0, 12));
    } else if s.marker == 0xE2 && t.is_prefix_of(p) && p.len() >= 14 {
        assert(t == p.subrange(0, 12));
        assert(p[0] == t[0] && p[1] == t[1] && p[2] == t[2] && p[3] == t[3] && p[4] == t[4] && p[5]
            == t[5]);
        assert(p[6] == t[6] && p[7] == t[7] && p[8] == t[8] && p[9] == t[9] && p[10] == t[10]
            && p[11] == t[11]);
    }
}

/// `order` lists the chunks of the profile among the segments by their numbers, which differ.
pub open spec fn numbered(parts: Seq<Part>, order: Seq<int>) -> bool {
    &&& order.len() > 0
    &&& forall|c: int|
        0 <= c < order.len() ==> 0 <= #[trigger] order[c] < parts.len() && parts[order[c]].icc()
    &&& forall|c: int, d: int|
        0 <= c < d < order.len() ==> parts[#[trigger] order[c]].payload[12] < parts[#[trigger] order[d]].payload[12]
    &&& forall|i: int|
        0 <= i < parts.len() && (#[trigger] parts[i]).icc() ==> exists|c: int|
            0 <= c < order.len() && #[trigger] order[c] == i
}

/// The chunks themselves, in order.
pub open spec fn chunks(parts: Seq<Part>, order: Seq<int>) -> Seq<Seq<u8>> {
    Seq::new(order.len(), |c: int| parts[order[c]].payload.skip(14))
}

proof fn lemma_icc_numbered(data: Seq<u8>, segs: Seq<crate::tiff::Segment>, no: int, i: int)
    requires
        -1 <= i < segs.len(),
        i >= 0 ==> crate::tiff::is_icc_chunk(data, segs[i]) && segs[i].payload(data)[12] == no,
        forall|j: int|
            0 <= j < segs.len() && j != i ==> !(crate::tiff::is_icc_chunk(data, #[trigger] segs[j])
                && segs[j].payload(data)[12] == no),
    ensures
        i < 0 ==> crate::tiff::icc_numbered(data, segs, no) == Seq::<u8>::empty(),
        i >= 0 ==> crate::tiff::icc_numbered(data, segs, no) == segs[i].payload(data).skip(14),
    decreases segs.len(),
{
    if segs.len() > 0 {
        let init = segs.drop_last();
        assert(forall|j: int| 0 <= j < init.len() ==> #[trigger] init[j] == segs[j]);
        let last = segs.len() - 1;
        let p = segs[last].payload(data);
        if i == last {
            lemma_icc_numbered(data, init, no, -1);
            assert(Seq::<u8>::empty() + p.subrange(14, p.len() as int) == p.skip(14));
        } else {
            lemma_icc_numbered(data, init, no, i);
            assert(!(crate::tiff::is_icc_chunk(data, segs[last]) && p[12] == no));
        }
    }
}

proof fn lemma_icc_below(data: Seq<u8>, parts: Seq<Part>, order: Seq<int>, n: nat, m: int)
    requires
        has_parts(data, parts),
        numbered(parts, order),
        0 <= m <= order.len(),
        forall|c: int| 0 <= c < m ==> parts[#[trigger] order[c]].payload[12] < n,
        forall|c: int| m <= c < order.len() ==> parts[#[trigger] order[c]].payload[12] >= n,
    ensures
        crate::tiff::icc_below(data, crate::tiff::segments(data, 2), n) == chunks(
            parts,
            order,
        ).take(m).flatten_alt(),
    decreases n,
{
    lemma_segments(data, 2, parts);
    let segs = crate::tiff::segments(data, 2);
    let all = chunks(parts, order);
    if n == 0 {
        if m > 0 {
            assert(parts[order[0]].payload[12] < 0);
        }
        assert(all.take(0).flatten_alt() == Seq::<u8>::empty());
    } else {
        let no = n - 1;
        let here = m > 0 && parts[order[m - 1]].payload[12] == no;
        let i = if here {
            order[m - 1]
        } else {
            -1
        };
        assert forall|j: int| 0 <= j < segs.len() && j != i implies !(crate::tiff::is_icc_chunk(
            data,
            #[trigger] segs[j],
        ) && segs[j].payload(data)[12] == no) by {
            lemma_icc(data, segs[j], parts[j]);
            if parts[j].icc() && parts[j].payload[12] == no {
                let c = choose|c: int| 0 <= c < order.len() && #[trigger] order[c] == j;
                if c >= m {
                    assert(parts[order[c]].payload[12] >= n);
                } else if c < m - 1 {
                    assert(parts[order[c]].payload[12] < parts[order[m - 1]].payload[12]);
                    assert(parts[order[m - 1]].payload[12] < n);
                }
            }
        }
        if here {
            lemma_icc(data, segs[i], parts[i]);
        }
        lemma_icc_numbered(data, segs, no as int, i);
        let k = if here {
            m - 1
        } else {
            m
        };
        assert forall|c: int| 0 <= c < k implies parts[#[trigger] order[c]].payload[12] < no by {
            if here {
                assert(parts[order[c]].payload[12] < parts[order[m - 1]].payload[12]);
            } else if c < m - 1 {
                assert(parts[order[c]].payload[12] < parts[order[m - 1]].payload[12]);
                assert(parts[order[m - 1]].payload[12] < n);
            } else {
                assert(parts[order[c]].payload[12] < n);
            }
        }
        assert forall|c: int| k <= c < order.len() implies parts[#[trigger] order[c]].payload[12]
            >= no by {
            if c >= m {
                assert(parts[order[c]].payload[12] >= n);
            }
        }
        lemma_icc_below(data, parts, order, no as nat, k);
        if here {
            assert(all.take(m).drop_last() == all.take(k));
            assert(all.take(m).last() == parts[i].payload.skip(14));
        } else {
            let a = crate::tiff::icc_below(data, segs, no as nat);
            assert(a + Seq::<u8>::empty() == a);
        }
    }
}

/// The profile is put together from its chunks by their numbers, whatever their order in the
/// file, and from nothing else.
pub proof fn law_profile_is_joined_by_number(data: Seq<u8>, parts: Seq<Part>, order: Seq<int>)
    requires
        has_parts(data, parts),
        numbered(parts, order),
    ensures
        crate::tiff::spec_jpeg_meta(data).icc == Some(chunks(parts, order).flatten_alt()),
{
    lemma_segments(data, 2, parts);
    let segs = crate::tiff::segments(data, 2);
    lemma_icc_below(data, parts, order, 256, order.len() as int);
    let all = chunks(parts, order);
    assert(all.take(order.len() as int) == all);
    let i = order[0];
    assert(parts[i].icc());
    lemma_icc(data, segs[i], parts[i]);
}

/// A start-of-frame marker: 0xC0 to 0xCF but for 0xC4, 0xC8 and 0xCC.
pub open spec fn starts_frame(marker: u8) -> bool {
    0xC0 <= marker <= 0xCF && marker != 0xC4 && marker != 0xC8 && marker != 0xCC
}

proof fn lemma_dims(data: Seq<u8>, at: int, parts: Seq<Part>, k: int)
    requires
        parts_at(data, at, parts),
        0 <= k <= parts.len(),
        forall|j: int| 0 <= j < k ==> !starts_frame((#[trigger] parts[j]).marker),
        k < parts.len() ==> starts_frame(parts[k].marker) && parts[k].payload.len() >= 5,
    ensures
        k == parts.len() ==> crate::decode::dims_from(data, at) is None,
        k < parts.len() ==> ({
            let p = parts[k].payload;
            crate::decode::dims_from(data, at) == Some(
                ((256 * p[3] + p[4]) as u32, (256 * p[1] + p[2]) as u32),
            )
        }),
    decreases parts.len(),
{
    if parts.len() > 0 {
        let x = parts[0];
        let next = at + 4 + x.payload.len();
        lemma_short(Endian::Big, data, at + 2, (x.payload.len() + 2) as u16);
        if k == 0 {
            let p = x.payload;
            assert(p[1] == data[at + 5] && p[2] == data[at + 6]);
            assert(p[3] == data[at + 7] && p[4] == data[at + 8]);
        } else {
            assert(!starts_frame(parts[0].marker));
            let rest = parts.skip(1);
            assert(forall|j: int| 0 <= j < rest.len() ==> #[trigger] rest[j] == parts[j + 1]);
            lemma_dims(data, next, rest, k - 1);
        }
    }
}

/// The size of a JPEG is what its first frame segment says: after the precision comes the height
/// and after that the width, two bytes each. A JPEG without one has no size.
pub proof fn law_size_stands_in_the_first_frame(data: Seq<u8>, parts: Seq<Part>, k: int)
    requires
        has_parts(data, parts),
        0 <= k <= parts.len(),
        forall|j: int| 0 <= j < k ==> !starts_frame((#[trigger] parts[j]).marker),
        k < parts.len() ==> starts_frame(parts[k].marker) && parts[k].payload.len() >= 5,
    ensures
        k == parts.len() ==> crate::decode::dims_from(data, 2) is None,
        k < parts.len() ==> ({
            let p = parts[k].payload;
            crate::decode::dims_from(data, 2) == Some(
                ((256 * p[3] + p[4]) as u32, (256 * p[1] + p[2]) as u32),
            )
        }),
{
    lemma_dims(data, 2, parts, k);
}

/// So a JPEG is probed to the size in its first frame segment and the orientation in its EXIF
/// segment.
pub proof fn law_probe_reads_the_header(data: Seq<u8>, parts: Seq<Part>, k: int)
    requires
        has_parts(data, parts),
        0 <= k < parts.len(),
        forall|j: int| 0 <= j < k ==> !starts_frame((#[trigger] parts[j]).marker),
        starts_frame(parts[k].marker),
        parts[k].payload.len() >= 5,
    ensures
        ({
            let p = parts[k].payload;
            crate::decode::spec_probe(data) == Some(
                (
                    (256 * p[3] + p[4]) as u32,
                    (256 * p[1] + p[2]) as u32,
                    crate::tiff::spec_jpeg_meta(data).orientation,
                ),
            )
        }),
{
    law_size_stands_in_the_first_frame(data, parts, k);
    assert(data[2] == 0xFF);
    crate::decode::law_jpeg_is_taken_whole(data);
}

/// Where segment `i` stands, when the first stands at `at`; the scan stands where the one behind
/// the last would.
pub open spec fn place(at: int, parts: Seq<Part>, i: int) -> int
    decreases i,
{
    if i <= 0 {
        at
    } else {
        place(at, parts, i - 1) + 4 + parts[i - 1].payload.len()
    }
}

proof fn lemma_place_behind(at: int, parts: Seq<Part>, i: int)
    requires
        0 < i <= parts.len(),
    ensures
        place(at, parts, i) == place(at + 4 + parts[0].payload.len(), parts.skip(1), i - 1),
    decreases i,
{
    reveal_with_fuel(place, 2);
    if i > 1 {
        lemma_place_behind(at, parts, i - 1);
        assert(parts.skip(1)[i - 2] == parts[i - 1]);
    }
}

/// What stands at the place of a segment, and of the scan.
proof fn lemma_part_at(data: Seq<u8>, at: int, parts: Seq<Part>, i: int)
    requires
        parts_at(data, at, parts),
        0 <= i <= parts.len(),
    ensures
        ({
            let p = place(at, parts, i);
            &&& 0 <= at <= p
            &&& p + 2 <= data.len()
            &&& data[p] == 0xFF
            &&& i == parts.len() ==> data[p + 1] == 0xDA
            &&& i < parts.len() ==> {
                let x = parts[i];
                &&& x.is_header()
                &&& data[p + 1] == x.marker
                &&& p + 4 + x.payload.len() <= data.len()
                &&& data.subrange(p + 4, p + 4 + x.payload.len()) == x.payload
                &&& crate::tiff::u16_at(Endian::Big, data, p + 2) == Some(
                    (x.payload.len() + 2) as u16,
                )
                &&& crate::frame::segment_end(data, p) == Some(place(at, parts, i + 1))
            }
        }),
    decreases parts.len(),
{
    if parts.len() > 0 {
        let x = parts[0];
        let next = at + 4 + x.payload.len();
        if i > 0 {
            lemma_part_at(data, next, parts.skip(1), i - 1);
            lemma_place_behind(at, parts, i);
            if i < parts.len() {
                assert(parts.skip(1)[i - 1] == parts[i]);
                lemma_place_behind(at, parts, i + 1);
            }
        } else {
            lemma_short(Endian::Big, data, at + 2, (x.payload.len() + 2) as u16);
            assert(place(at, parts, 1) == place(at, parts, 0) + 4 + x.payload.len());
        }
    }
}

/// An ordinary header: no segment is a fill byte or a stuffed one, and none is the short APP0
/// segment that a decoder misreads.
pub open spec fn is_ordinary(parts: Seq<Part>) -> bool {
    forall|i: int|
        0 <= i < parts.len() ==> (#[trigger] parts[i]).marker != 0 && parts[i].marker != 0xFF && !(
        parts[i].marker == 0xE0 && parts[i].payload.len() == 4)
}

/// A frame segment that is all there: precision, height, width and number of components, and three
/// bytes for each.
pub open spec fn is_frame(x: Part) -> bool {
    &&& starts_frame(x.marker)
    &&& x.payload.len() >= 6
    &&& x.payload[5] >= 1
    &&& x.payload.len() == 6 + 3 * x.payload[5]
}

proof fn lemma_frame_at(data: Seq<u8>, parts: Seq<Part>, k: int)
    requires
        has_parts(data, parts),
        0 <= k < parts.len(),
        is_frame(parts[k]),
    ensures
        ({
            let f = place(2, parts, k);
            let p = parts[k].payload;
            &&& crate::frame::frame_at(data, f)
            &&& data[f + 1] == parts[k].marker
            &&& data[f + 9] == p[5]
            &&& crate::frame::size_at(data, f) == (256 * p[3] + p[4], 256 * p[1] + p[2])
            &&& forall|j: int|
                0 <= j < p[5] ==> #[trigger] data[f + 11 + 3 * j] == p[7 + 3 * j]
        }),
{
    lemma_part_at(data, 2, parts, k);
    let f = place(2, parts, k);
    let p = parts[k].payload;
    let whole = data.subrange(f + 4, f + 4 + p.len());
    assert(forall|n: int| 0 <= n < p.len() ==> #[trigger] whole[n] == data[f + 4 + n]);
    assert(data[f + 5] == p[1] && data[f + 6] == p[2] && data[f + 7] == p[3] && data[f + 8] == p[4]
        && data[f + 9] == p[5]) by {
        assert(whole[1] == p[1] && whole[2] == p[2] && whole[3] == p[3] && whole[4] == p[4]
            && whole[5] == p[5]);
    }
    assert forall|j: int| 0 <= j < p[5] implies #[trigger] data[f + 11 + 3 * j] == p[7 + 3 * j] by {
        assert(whole[7 + 3 * j] == data[f + 4 + (7 + 3 * j)]);
    }
}

proof fn lemma_marker(data: Seq<u8>, parts: Seq<Part>, i: int)
    requires
        has_parts(data, parts),
        is_ordinary(parts),
        0 <= i <= parts.len(),
    ensures
        crate::frame::marker_from(data, place(2, parts, i)) == Some(place(2, parts, i)),
{
    lemma_part_at(data, 2, parts, i);
    if i < parts.len() {
        assert(parts[i].marker != 0);
    }
}

proof fn lemma_rest_of_preamble(
    data: Seq<u8>,
    parts: Seq<Part>,
    i: int,
    frame: Option<usize>,
    transform: Option<u8>,
)
    requires
        has_parts(data, parts),
        is_ordinary(parts),
        0 <= i <= parts.len(),
        forall|j: int| i <= j < parts.len() ==> !(0xC0 <= (#[trigger] parts[j]).marker <= 0xC2),
        data.len() <= usize::MAX,
    ensures
        ({
            let r = crate::frame::preamble_from(data, place(2, parts, i), frame, transform);
            &&& r is Some
            &&& r->0.frame == frame
            &&& r->0.scan == place(2, parts, parts.len() as int)
            &&& (forall|j: int| i <= j < parts.len() ==> (#[trigger] parts[j]).marker != 0xEE)
                ==> r->0.transform == transform
        }),
    decreases parts.len() - i,
{
    lemma_part_at(data, 2, parts, i);
    lemma_marker(data, parts, i);
    let p = place(2, parts, i);
    if i < parts.len() {
        let x = parts[i];
        assert(x.marker != 0xE0 || x.payload.len() != 4);
        assert(!(0xC0 <= x.marker <= 0xC2));
        let next = place(2, parts, i + 1);
        assert(crate::frame::resumed_at(data, p) == Some(next));
        let t = if crate::frame::adobe_at(data, p) {
            Some(data[p + 15])
        } else {
            transform
        };
        lemma_rest_of_preamble(data, parts, i + 1, frame, t);
    }
}

proof fn lemma_preamble(
    data: Seq<u8>,
    parts: Seq<Part>,
    k: int,
    i: int,
    frame: Option<usize>,
    transform: Option<u8>,
)
    requires
        has_parts(data, parts),
        is_ordinary(parts),
        0 <= i <= k < parts.len(),
        is_frame(parts[k]),
        0xC0 <= parts[k].marker <= 0xC2,
        forall|j: int|
            0 <= j < parts.len() && j != k ==> !(0xC0 <= (#[trigger] parts[j]).marker <= 0xC2),
        data.len() <= usize::MAX,
    ensures
        ({
            let r = crate::frame::preamble_from(data, place(2, parts, i), frame, transform);
            &&& r is Some
            &&& r->0.frame == Some(place(2, parts, k) as usize)
            &&& r->0.scan == place(2, parts, parts.len() as int)
            &&& (forall|j: int| 0 <= j < parts.len() ==> (#[trigger] parts[j]).marker != 0xEE)
                && transform is None ==> r->0.transform is None
        }),
    decreases k - i,
{
    lemma_part_at(data, 2, parts, i);
    lemma_marker(data, parts, i);
    let p = place(2, parts, i);
    let x = parts[i];
    assert(x.marker != 0xE0 || x.payload.len() != 4);
    let next = place(2, parts, i + 1);
    assert(crate::frame::resumed_at(data, p) == Some(next));
    if i == k {
        lemma_frame_at(data, parts, k);
        let t = if data[p + 9] == 1 {
            None
        } else {
            transform
        };
        lemma_rest_of_preamble(data, parts, i + 1, Some(p as usize), t);
    } else {
        assert(!(0xC0 <= x.marker <= 0xC2));
        let t = if crate::frame::adobe_at(data, p) {
            Some(data[p + 15])
        } else {
            transform
        };
        lemma_preamble(data, parts, k, i + 1, frame, t);
    }
}

proof fn lemma_finest(data: Seq<u8>, f: int, n: nat, most: u8)
    requires
        forall|j: int| 0 <= j < n ==> #[trigger] data[f + 11 + 3 * j] / 16 <= most,
    ensures
        crate::frame::finest_across(data, f, n) <= most,
    decreases n,
{
    if n > 0 {
        lemma_finest(data, f, (n - 1) as nat, most);
        assert(data[f + 11 + 3 * (n - 1)] / 16 <= most);
    }
}

/// An ordinary JPEG is never refused: one with a frame that is all there, whose components come in
/// one scan, or whose first component is sampled across as finely as any, and which does not ask
/// for the colour transform of four components with fewer than three.
pub proof fn law_ordinary_jpeg_meets_no_hurdle(data: Seq<u8>, parts: Seq<Part>, k: int)
    requires
        has_parts(data, parts),
        is_ordinary(parts),
        data.len() <= usize::MAX,
        0 <= k < parts.len(),
        is_frame(parts[k]),
        0xC0 <= parts[k].marker <= 0xC2,
        forall|j: int|
            0 <= j < parts.len() && j != k ==> !(0xC0 <= (#[trigger] parts[j]).marker <= 0xC2),
        ({
            let p = parts[k].payload;
            let scan = place(2, parts, parts.len() as int);
            ||| parts[k].marker != 0xC2 && scan + 5 <= data.len() && data[scan + 4] == p[5]
            ||| (forall|j: int| 0 <= j < p[5] ==> #[trigger] p[7 + 3 * j] / 16 <= p[7] / 16) && (
            parts[k].marker != 0xC2 || p[5] >= 3 || forall|j: int|
                0 <= j < parts.len() ==> (#[trigger] parts[j]).marker != 0xEE)
        }),
    ensures
        crate::frame::hurdle(data) is None,
{
    let f = place(2, parts, k);
    let p = parts[k].payload;
    lemma_preamble(data, parts, k, 0, None, None);
    lemma_frame_at(data, parts, k);
    lemma_part_at(data, 2, parts, k);
    if forall|j: int| 0 <= j < p[5] ==> #[trigger] p[7 + 3 * j] / 16 <= p[7] / 16 {
        let first: int = 0;
        assert(data[f + 11 + 3 * first] == p[7 + 3 * first]);
        assert forall|j: int| 0 <= j < p[5] implies #[trigger] data[f + 11 + 3 * j] / 16 <= p[7]
            / 16 by {
            assert(p[7 + 3 * j] / 16 <= p[7] / 16);
        }
        lemma_finest(data, f, p[5] as nat, p[7] / 16);
    }
}

proof fn lemma_frame_from(data: Seq<u8>, parts: Seq<Part>, k: int, i: int)
    requires
        has_parts(data, parts),
        is_ordinary(parts),
        0 <= i <= k < parts.len(),
        is_frame(parts[k]),
        forall|j: int| 0 <= j < k ==> !starts_frame((#[trigger] parts[j]).marker),
    ensures
        crate::frame::frame_from(data, place(2, parts, i)) == Some(place(2, parts, k)),
    decreases k - i,
{
    lemma_part_at(data, 2, parts, i);
    lemma_marker(data, parts, i);
    if i == k {
        lemma_frame_at(data, parts, k);
    } else {
        assert(!starts_frame(parts[i].marker));
        lemma_frame_from(data, parts, k, i + 1);
    }
}

/// A JPEG whose sides are at most 65528 pixels long is never refused for its size.
pub proof fn law_ordinary_size_can_be_counted(data: Seq<u8>, parts: Seq<Part>, k: int)
    requires
        has_parts(data, parts),
        is_ordinary(parts),
        0 <= k < parts.len(),
        is_frame(parts[k]),
        forall|j: int| 0 <= j < k ==> !starts_frame((#[trigger] parts[j]).marker),
        256 * parts[k].payload[3] + parts[k].payload[4] <= 65528,
        256 * parts[k].payload[1] + parts[k].payload[2] <= 65528,
    ensures
        crate::frame::countable(data),
{
    lemma_frame_from(data, parts, k, 0);
    lemma_frame_at(data, parts, k);
}

/// So an ordinary JPEG comes to what the decoder makes of it: where zune-jpeg accepts its headers,
/// it is decoded, and what it gives, or says went wrong, is what comes out.
pub proof fn law_ordinary_jpeg_is_decoded(
    data: Seq<u8>,
    scratch: Seq<u8>,
    size: usize,
    r: Result<crate::decode::Picture, crate::decode::Failure>,
)
    requires
        crate::frame::hurdle(data) is None,
        crate::decode::zune_header(data) == Ok::<Option<usize>, Seq<char>>(Some(size)),
        crate::decode::zune_gives(data, scratch, r),
    ensures
        ({
            let said = crate::decode::zune_decoded(
                data,
                crate::decode::zeros(size as nat),
            ).0;
            &&& said matches Err(m) ==> r == Err::<
                crate::decode::Picture,
                crate::decode::Failure,
            >(crate::decode::Failure::Decode(m))
            &&& said matches Ok((Some((w, h)), icc)) ==> {
                &&& r is Ok
                &&& r->Ok_0.width == w
                &&& r->Ok_0.height == h
                &&& r->Ok_0.icc == icc
                &&& r->Ok_0.rgba.len() == size
            }
        }),
{
    let buf = choose|buf: Seq<u8>|
        {
            &&& crate::decode::fitted(scratch, size as nat, buf)
            &&& #[trigger] crate::decode::zune_decodes(data, size as nat, buf, r)
        };
    assert(crate::decode::zune_decodes(data, size as nat, buf, r));
}

/// A directory that lies outside the data, or declares more than 512 entries, is garbage: a stream
/// that starts with one is read, and says nothing.
pub proof fn law_garbage_directory_says_nothing(e: Endian, data: Seq<u8>, first: u32, count: u16)
    requires
        has_header(e, data, first),
        first == 0 || first + 2 > data.len() || (short_at(e, data, first as int, count) && count
            > 512),
    ensures
        crate::tiff::spec_parse(data) is Some,
        crate::tiff::spec_parse(data)->0.previews.len() == 0,
        crate::tiff::spec_parse(data)->0.orientation == 1,
        crate::tiff::spec_parse(data)->0.color_space is None,
{
    lemma_header(e, data, first);
    if first != 0 && first + 2 <= data.len() {
        lemma_short(e, data, first as int, count);
    }
}

} // verus!

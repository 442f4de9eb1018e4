//! Moving decoded images on to the GPU: which of them to take now, and what follows once a
//! texture is resident.
use vstd::prelude::*;
use crate::app::{App, AppFacts, Layout, DEFAULT_RADIUS};
use crate::decode::Image;
use crate::gpu;
use crate::gpu::{Entry, TextureCache, Textures};
use crate::icc;
use crate::prefetch;
use crate::prefetch::{Prefetcher, Ring, State};

verus! {

/// Textures held on the GPU. One more than the prefetch window so the image being displayed is
/// never the one evicted.
pub const TEXTURE_CACHE: usize = DEFAULT_RADIUS * 2 + 2;

/// Uploads accepted before the rest are left in the ring for a later frame. Each holds its
/// decoded pixels (~102 MB) until the transfer finishes, so this bounds that too.
pub const MAX_IN_FLIGHT: usize = 4;

/// How long a frame may spend on transfers, in nanoseconds.
pub const BAND_BUDGET: u64 = 4_000_000;

/// The images that were collected from the ring in a frame, nearest to the selection first.
pub struct Batch {
    ready: Vec<(usize, Box<Image>)>,
    uploaded: usize,
}

/// The mathematical content of a [`Batch`].
#[verifier::ext_equal]
pub struct BatchFacts {
    pub ready: Seq<(usize, Box<Image>)>,
    /// How many have been taken for upload.
    pub uploaded: usize,
}

impl View for Batch {
    type V = BatchFacts;

    closed spec fn view(&self) -> BatchFacts {
        BatchFacts { ready: self.ready@, uploaded: self.uploaded }
    }
}

/// Nearest to `current` first.
pub open spec fn nearest_first(v: Seq<(usize, Box<Image>)>, current: usize) -> bool {
    forall|i: int, j: int|
        0 <= i < j < v.len() ==> prefetch::distance((#[trigger] v[i]).0 as int, current as int)
            <= prefetch::distance((#[trigger] v[j]).0 as int, current as int)
}

/// There is no room for image `index`: as many are in flight as may be, and it is not the one
/// being looked at.
pub open spec fn must_wait(uploaded: usize, pending: usize, index: usize, current: usize) -> bool {
    pending + uploaded >= MAX_IN_FLIGHT && index != current
}

/// What taking the next image leaves of the batch and the ring: what has to wait goes back to
/// the ring.
pub open spec fn taken(b: BatchFacts, r: Ring, pending: usize, current: usize) -> (
    BatchFacts,
    Ring,
    Option<(usize, Box<Image>)>,
)
    decreases b.ready.len(),
{
    if b.ready.len() == 0 {
        (b, r, None)
    } else {
        let first = b.ready[0];
        let rest = BatchFacts { ready: b.ready.drop_first(), ..b };
        if must_wait(b.uploaded, pending, first.0, current) {
            taken(rest, r.returned(first.0, first.1), pending, current)
        } else {
            (
                BatchFacts { uploaded: prefetch::bumped(b.uploaded), ..rest },
                r,
                Some(first),
            )
        }
    }
}

fn apart(a: usize, b: usize) -> (d: usize)
    ensures
        d == prefetch::distance(a as int, b as int),
{
    if a < b {
        b - a
    } else {
        a - b
    }
}

fn add_ready(v: &mut Vec<(usize, Box<Image>)>, item: (usize, Box<Image>), current: usize)
    requires
        nearest_first(old(v)@, current),
    ensures
        nearest_first(final(v)@, current),
        final(v)@.to_multiset() == old(v)@.to_multiset().insert(item),
{
    let ghost before = v@;
    let mut at: usize = v.len();
    let d: usize = apart(item.0, current);
    while at > 0 && apart(v[at - 1].0, current) > d
        invariant
            at <= v@.len(),
            v@ == before,
            d == prefetch::distance(item.0 as int, current as int),
            forall|k: int|
                at <= k < v@.len() ==> prefetch::distance((#[trigger] v@[k]).0 as int, current as int)
                    > d,
        decreases at,
    {
        at = at - 1;
    }
    let ghost new = item;
    v.insert(at, item);
    proof {
        let after = v@;
        assert(after[at as int] == new);
        assert(after.remove(at as int) == before);
        after.to_multiset_ensures();
        assert(after.contains(new));
        assert(after.to_multiset() == before.to_multiset().insert(new));
    }
}

impl Batch {
    /// The images collected from the ring. Nearest-first, so the image being looked at is
    /// uploaded before its neighbours.
    pub fn new(ready: Vec<(usize, Box<Image>)>, current: usize) -> (b: Self)
        ensures
            nearest_first(b@.ready, current),
            b@.ready.to_multiset() == ready@.to_multiset(),
            b@.uploaded == 0,
    {
        let mut v: Vec<(usize, Box<Image>)> = Vec::new();
        let ghost all = ready@;
        assert(v@.to_multiset() == all.take(0).to_multiset()) by {
            assert(v@ == all.take(0));
        }
        for item in it: ready
            invariant
                it.seq() == all,
                nearest_first(v@, current),
                v@.to_multiset() == all.take(it.index() as int).to_multiset(),
        {
            let ghost i = it.index() as int;
            proof {
                all.take(i).to_multiset_ensures();
                assert(all.take(i + 1) == all.take(i).push(all[i]));
            }
            add_ready(&mut v, item, current);
        }
        assert(all.take(all.len() as int) == all);
        Batch { ready: v, uploaded: 0 }
    }

    pub fn is_empty(&self) -> (r: bool)
        ensures
            r == (self@.ready.len() == 0),
    {
        self.ready.len() == 0
    }

    /// The next image to upload, or `None` when nothing is left. `pending` is the number of
    /// uploads that are not finished.
    ///
    /// Taking pixels is cheap: the transfer is paid for later, band by band. What is taken at
    /// once is still capped, so that the pending list, and the pixels it holds, stay bounded.
    /// The rest goes back to the ring for a later frame.
    pub fn next(&mut self, pending: usize, current: usize, ring: &mut Prefetcher) -> (r: Option<
        (usize, Box<Image>),
    >)
        ensures
            (final(self)@, final(ring)@, r) == taken(old(self)@, old(ring)@, pending, current),
    {
        let ghost goal = taken(self@, ring@, pending, current);
        while self.ready.len() > 0
            invariant
                taken(self@, ring@, pending, current) == goal,
                goal == taken(old(self)@, old(ring)@, pending, current),
            decreases self.ready@.len(),
        {
            let ghost before = self@;
            let (index, image) = self.ready.remove(0);
            assert(self@.ready == before.ready.drop_first());
            let full = self.uploaded >= MAX_IN_FLIGHT || pending >= MAX_IN_FLIGHT - self.uploaded;
            if full && index != current {
                ring.put_back(index, image);
            } else {
                if self.uploaded < usize::MAX {
                    self.uploaded = self.uploaded + 1;
                }
                return Some((index, image));
            }
        }
        None
    }
}

/// The image being looked at is never put off, and nothing else is taken beyond the limit.
pub proof fn law_uploads_are_bounded(b: BatchFacts, r: Ring, pending: usize, current: usize)
    ensures
        match taken(b, r, pending, current).2 {
            Some((index, _)) => index == current || pending + b.uploaded < MAX_IN_FLIGHT,
            None => forall|i: int| 0 <= i < b.ready.len() ==> (#[trigger] b.ready[i]).0 != current,
        },
        taken(b, r, pending, current).0.ready.len() <= b.ready.len(),
        b.ready.len() > 0 && pending + b.uploaded < MAX_IN_FLIGHT ==> taken(
            b,
            r,
            pending,
            current,
        ).2 == Some(b.ready[0]),
    decreases b.ready.len(),
{
    if b.ready.len() > 0 && must_wait(b.uploaded, pending, b.ready[0].0, current) {
        let first = b.ready[0];
        let rest = BatchFacts { ready: b.ready.drop_first(), ..b };
        law_uploads_are_bounded(rest, r.returned(first.0, first.1), pending, current);
        assert forall|i: int|
            0 <= i < b.ready.len() && taken(b, r, pending, current).2 is None implies (
        #[trigger] b.ready[i]).0 != current by {
            if i > 0 {
                assert(rest.ready[i - 1] == b.ready[i]);
            }
        }
    }
}

/// The ring once an image whose texture is gone will be decoded again: the renderer owns the
/// only copy of the pixels once they are uploaded.
pub open spec fn repaired<T>(r: Ring, entries: Map<usize, Entry<T>>, index: usize) -> Ring {
    if !entries.contains_key(index) && (r.state(index) == State::Collected || r.state(index)
        == State::Absent) {
        r.required(index)
    } else {
        r
    }
}

/// The state once the texture of the selected image is resident: the view is laid out for its
/// real size unless it already is, and its colours are known.
pub open spec fn resident<T>(a: AppFacts, entries: Map<usize, Entry<T>>) -> (AppFacts, Layout) {
    if !entries.contains_key(a.index) {
        (a, Layout::Keep)
    } else {
        let e = entries[a.index];
        if a.shown is None || a.shown->0.index != a.index {
            let b = a.noted(
                a.index,
                e.stored,
                e.orientation.spec_value(),
                icc::spec_classify(None, None),
            );
            (b.coloured(a.index, e.colour), b.by_mode())
        } else {
            (a.coloured(a.index, e.colour), Layout::Keep)
        }
    }
}

/// The textures that go once a batch has been taken.
pub open spec fn let_go<T>(
    entries: Map<usize, Entry<T>>,
    index: usize,
    hinted: Option<usize>,
) -> Set<usize> {
    gpu::outside(entries, index, (DEFAULT_RADIUS + 1) as usize, hinted)
}

/// A texture stays as long as it is no further than eleven images from the selected one, or is
/// that of the row under the pointer; any other goes.
pub proof fn law_near_textures_stay<T>(
    entries: Map<usize, Entry<T>>,
    index: usize,
    hinted: Option<usize>,
    i: usize,
)
    requires
        entries.contains_key(i),
    ensures
        i >= index && i - index <= 11 ==> !let_go(entries, index, hinted).contains(i),
        i < index && index - i <= 11 ==> !let_go(entries, index, hinted).contains(i),
        hinted == Some(i) ==> !let_go(entries, index, hinted).contains(i),
        hinted != Some(i) && i >= index && i - index > 11 ==> let_go(entries, index, hinted).contains(
            i,
        ),
        hinted != Some(i) && i < index && index - i > 11 ==> let_go(entries, index, hinted).contains(
            i,
        ),
{
}

/// What follows once a batch has been taken: textures outside the window go, the selected image
/// is decoded again if its texture is gone, and is noted if it is there.
///
/// The hovered row's texture stays: otherwise one far from the selection would be evicted the
/// instant after it was uploaded, and because the ring had already handed over the pixels,
/// clicking that row would show nothing.
pub fn finish_uploads<T>(
    textures: &mut TextureCache<T>,
    app: &mut App,
    ring: &mut Prefetcher,
    hinted: Option<usize>,
) -> (layout: Layout)
    ensures
        ({
            let gone = gpu::outside(
                old(textures)@.entries,
                old(app)@.index,
                (DEFAULT_RADIUS + 1) as usize,
                hinted,
            );
            exists|evicted: Seq<Entry<T>>| #[trigger]
                gpu::values_under(old(textures)@.entries, gone, evicted) && final(textures)@
                    == (Textures {
                    entries: old(textures)@.entries.remove_keys(gone),
                    pool: gpu::recycled(old(textures)@.pool, evicted),
                    ..old(textures)@
                })
        }),
        final(textures)@.entries == old(textures)@.entries.remove_keys(
            let_go(old(textures)@.entries, old(app)@.index, hinted),
        ),
        old(textures)@.wf() ==> final(textures)@.wf(),
        final(ring)@ == repaired(old(ring)@, final(textures)@.entries, old(app)@.index),
        (final(app)@, layout) == resident(old(app)@, final(textures)@.entries),
{
    let index: usize = app.index();
    textures.retain_window_with(index, DEFAULT_RADIUS + 1, hinted);
    if !textures.contains(index) {
        let lost = match ring.state(index) {
            State::Collected => true,
            State::Absent => true,
            _ => false,
        };
        if lost {
            ring.require(index);
        }
    }
    let needs_note = match app.shown() {
        Some(s) => s.index != index,
        None => true,
    };
    match textures.get(index) {
        Some(entry) => {
            let layout = if needs_note {
                app.note_shown(index, entry.stored, entry.orientation.value(), None, None)
            } else {
                Layout::Keep
            };
            // Always, even when the view was already laid out from the header: the profile
            // only exists once the file has actually been decoded.
            app.note_colour(index, entry.colour);
            layout
        },
        None => Layout::Keep,
    }
}

/// A profile that is not sRGB never passes in silence: once the texture of the selected image is
/// resident, what is shown carries the verdict on its pixels, and the user is told when that is
/// news. A view that was laid out from the header before is left alone.
pub proof fn law_colours_reach_the_screen<T>(a: AppFacts, entries: Map<usize, Entry<T>>)
    requires
        entries.contains_key(a.index),
    ensures
        ({
            let (b, layout) = resident(a, entries);
            let colour = entries[a.index].colour;
            let laid_out = a.shown is Some && a.shown->0.index == a.index;
            &&& b.shown is Some
            &&& b.shown->0.index == a.index
            &&& b.shown->0.colour.spec_same(colour)
            &&& laid_out ==> layout == Layout::Keep
            &&& (colour is NotSrgb || colour is Unparsable) && !(laid_out
                && a.shown->0.colour.spec_same(colour)) ==> b.status == crate::app::colour_message(
                colour,
            )
        }),
{
}

/// The selected image is never lost: once uploads are done either its texture is there, or the
/// ring has its pixels, is about to, or has failed to get them.
pub proof fn law_selected_image_is_never_lost<T>(
    r: Ring,
    entries: Map<usize, Entry<T>>,
    index: usize,
)
    requires
        index < r.paths.len(),
    ensures
        ({
            let s = repaired(r, entries, index).state(index);
            ||| entries.contains_key(index)
            ||| s == State::Queued
            ||| s == State::Decoding
            ||| s == State::Ready
            ||| s == State::Failed
        }),
{
}

/// As long as fewer than four images are in flight the nearest one is taken, and the rest wait
/// their turn. After that only the image being looked at is: what stands before it goes back to
/// the ring, and where it is not among them all do.
pub proof fn law_four_images_are_in_flight(
    b: BatchFacts,
    r: Ring,
    pending: usize,
    current: usize,
    k: int,
)
    requires
        b.uploaded < usize::MAX,
        0 <= k <= b.ready.len(),
        k < b.ready.len() ==> b.ready[k].0 == current,
        forall|i: int| 0 <= i < k ==> (#[trigger] b.ready[i]).0 != current,
    ensures
        ({
            let (after, ring, image) = taken(b, r, pending, current);
            &&& b.ready.len() == 0 ==> image is None && after == b && ring == r
            &&& b.ready.len() > 0 && pending + b.uploaded < 4 ==> {
                &&& image == Some(b.ready[0])
                &&& after.ready == b.ready.skip(1)
                &&& after.uploaded == b.uploaded + 1
                &&& ring == r
            }
            &&& pending + b.uploaded >= 4 && k < b.ready.len() ==> {
                &&& image == Some(b.ready[k])
                &&& after.ready == b.ready.skip(k + 1)
                &&& after.uploaded == b.uploaded + 1
            }
            &&& pending + b.uploaded >= 4 && k == b.ready.len() ==> {
                &&& image is None
                &&& after.ready.len() == 0
                &&& after.uploaded == b.uploaded
            }
        }),
    decreases b.ready.len(),
{
    if b.ready.len() > 0 {
        let first = b.ready[0];
        let rest = BatchFacts { ready: b.ready.drop_first(), ..b };
        assert(b.ready.drop_first() == b.ready.skip(1));
        if pending + b.uploaded >= 4 && first.0 != current {
            assert(k > 0);
            assert(forall|i: int| 0 <= i < rest.ready.len() ==> #[trigger] rest.ready[i]
                == b.ready[i + 1]);
            law_four_images_are_in_flight(
                rest,
                r.returned(first.0, first.1),
                pending,
                current,
                k - 1,
            );
            if k < b.ready.len() {
                assert(rest.ready.skip(k) == b.ready.skip(k + 1));
            }
        } else if k == 0 {
            assert(b.ready.skip(1) == b.ready.skip(k + 1));
        }
    }
}

/// What has to wait is not lost: an image that goes back to a ring that still wants it is ready
/// there again.
pub proof fn law_what_waits_goes_back_to_the_ring(
    b: BatchFacts,
    r: Ring,
    pending: usize,
    current: usize,
)
    requires
        pending + b.uploaded >= 4,
        b.ready.len() > 0,
        b.ready[0].0 != current,
        r.slots.contains_key(b.ready[0].0),
        r.slots[b.ready[0].0] is Collected,
        prefetch::within_reach(r.paths.len(), r.centre, r.radius, b.ready[0].0),
        forall|i: int| 0 < i < b.ready.len() ==> (#[trigger] b.ready[i]).0 != b.ready[0].0,
    ensures
        ({
            let ring = taken(b, r, pending, current).1;
            &&& ring.slots.contains_key(b.ready[0].0)
            &&& ring.slots[b.ready[0].0] == prefetch::Slot::Ready(b.ready[0].1)
        }),
{
    let first = b.ready[0];
    let rest = BatchFacts { ready: b.ready.drop_first(), ..b };
    let back = r.returned(first.0, first.1);
    assert(forall|i: int| 0 <= i < rest.ready.len() ==> #[trigger] rest.ready[i] == b.ready[i + 1]);
    lemma_taken_keeps(rest, back, pending, current, first.0);
}

proof fn lemma_taken_keeps(b: BatchFacts, r: Ring, pending: usize, current: usize, index: usize)
    requires
        forall|i: int| 0 <= i < b.ready.len() ==> (#[trigger] b.ready[i]).0 != index,
        r.slots.contains_key(index),
    ensures
        taken(b, r, pending, current).1.slots.contains_key(index),
        taken(b, r, pending, current).1.slots[index] == r.slots[index],
    decreases b.ready.len(),
{
    if b.ready.len() > 0 {
        let first = b.ready[0];
        let rest = BatchFacts { ready: b.ready.drop_first(), ..b };
        assert(forall|i: int| 0 <= i < rest.ready.len() ==> #[trigger] rest.ready[i]
            == b.ready[i + 1]);
        lemma_taken_keeps(rest, r.returned(first.0, first.1), pending, current, index);
    }
}

/// A batch stands in the order of the distance from the selection.
pub proof fn law_batch_goes_by_distance(v: Seq<(usize, Box<Image>)>, current: usize, i: int, j: int)
    requires
        nearest_first(v, current),
        0 <= i < j < v.len(),
    ensures
        v[j].0 >= current && v[i].0 >= current ==> v[i].0 <= v[j].0,
        v[j].0 < current && v[i].0 < current ==> v[i].0 >= v[j].0,
        v[j].0 >= current && v[i].0 < current ==> current - v[i].0 <= v[j].0 - current,
        v[j].0 < current && v[i].0 >= current ==> v[i].0 - current <= current - v[j].0,
{
    assert(prefetch::distance(v[i].0 as int, current as int) <= prefetch::distance(
        v[j].0 as int,
        current as int,
    ));
}

/// Once the texture of the selected image is there, an image that was not laid out yet is shown at
/// its size, turned as it says, and fitted according to the mode; and one that was stays as it
/// is. While it is not there nothing changes.
pub proof fn law_texture_lays_the_image_out<T>(a: AppFacts, entries: Map<usize, Entry<T>>)
    ensures
        !entries.contains_key(a.index) ==> resident(a, entries) == (a, Layout::Keep),
        entries.contains_key(a.index) && (a.shown is None || a.shown->0.index != a.index) ==> {
            let (b, layout) = resident(a, entries);
            let e = entries[a.index];
            let o = e.orientation.spec_value();
            let s = b.shown->0;
            &&& b.shown is Some
            &&& s.index == a.index
            &&& s.stored == e.stored
            &&& 1 <= o <= 4 ==> s.displayed == e.stored
            &&& 5 <= o <= 8 ==> s.displayed == (e.stored.1, e.stored.0)
            &&& a.fit_mode == crate::view::FitMode::Refit ==> layout == (Layout::Fit {
                width: s.displayed.0,
                height: s.displayed.1,
            })
            &&& a.fit_mode == crate::view::FitMode::Preserve ==> layout == (Layout::Clamp {
                width: s.displayed.0,
                height: s.displayed.1,
            })
        },
        entries.contains_key(a.index) && a.shown is Some && a.shown->0.index == a.index ==> {
            let (b, layout) = resident(a, entries);
            &&& layout == Layout::Keep
            &&& b.shown is Some
            &&& b.shown->0.stored == a.shown->0.stored
            &&& b.shown->0.displayed == a.shown->0.displayed
            &&& b.shown->0.orientation == a.shown->0.orientation
        },
{
}

/// The selected image is decoded again if neither its texture nor its pixels are anywhere; in
/// every other case the ring is left alone.
pub proof fn law_lost_image_is_decoded_again<T>(
    r: Ring,
    entries: Map<usize, Entry<T>>,
    index: usize,
)
    requires
        index < r.paths.len(),
    ensures
        ({
            let s = repaired(r, entries, index);
            let there = r.slots.contains_key(index);
            let lost = !entries.contains_key(index) && (!there || r.slots[index] is Collected);
            &&& !lost ==> s == r
            &&& lost ==> s.slots.contains_key(index) && s.slots[index] is Queued
                && prefetch::has_job(s.queue, index)
        }),
{
    prefetch::law_required_image_is_on_its_way(r, index, index);
}

/// There is room for the texture of every image of the window, the one on screen among them, and
/// for one more; four uploads are in flight at most, and a frame spends 4 ms on them.
pub proof fn law_window_fits_into_the_cache(radius: usize)
    requires
        radius <= DEFAULT_RADIUS,
    ensures
        radius + 1 + radius < TEXTURE_CACHE,
        TEXTURE_CACHE == 22,
        MAX_IN_FLIGHT == 4,
        BAND_BUDGET == 4_000_000,
{
}

} // verus!

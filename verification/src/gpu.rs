//! A bounded texture cache, and the plan by which pixels get into its textures.
//!
//! Nothing here touches the graphics device. A texture is whatever handle the renderer
//! uses; this module decides which ones live, which are reused, and which rows of which
//! image are to be written next.
use std::collections::HashMap;
use vstd::prelude::*;
use crate::decode::Image;
use crate::icc;
use crate::icc::Verdict;
use crate::prefetch;
use crate::table;
use crate::tiff;
use crate::view::Orientation;

verus! {

broadcast use vstd::std_specs::hash::group_hash_axioms;

/// Bounded map from group index to payload, with window-based eviction.
///
/// Every mutator returns the values it evicted, so the owner can recycle them rather
/// than let them drop.
///
/// The cap mirrors the prefetch window: there is no point holding textures for images
/// the ring has already evicted. At 25.6 MP and 4 bytes per pixel each entry is ~102 MB,
/// so the cap is what keeps VRAM in hand.
#[verifier::reject_recursive_types(T)]
pub struct Cache<T> {
    entries: HashMap<usize, T>,
    capacity: usize,
}

impl<T> View for Cache<T> {
    type V = Map<usize, T>;

    closed spec fn view(&self) -> Map<usize, T> {
        self.entries@
    }
}

/// `values` are those that `m` has under the given indices, each once.
pub open spec fn values_under<T>(m: Map<usize, T>, indices: Set<usize>, values: Seq<T>) -> bool {
    exists|keys: Seq<usize>|
        {
            &&& #[trigger] keys.no_duplicates()
            &&& keys.to_set() == indices
            &&& values == keys.map_values(|i: usize| m[i])
        }
}

/// The indices of `m` outside `centre` +/- `radius`, but for the one to keep.
pub open spec fn outside<T>(
    m: Map<usize, T>,
    centre: usize,
    radius: usize,
    keep: Option<usize>,
) -> Set<usize> {
    m.dom().filter(
        |i: usize| !(centre - radius <= i <= centre + radius) && keep != Some(i),
    )
}

/// `victim` is the entry to go when there is no room for `index`: none but the new one's is
/// further from it.
pub open spec fn is_victim<T>(m: Map<usize, T>, index: usize, victim: usize) -> bool {
    &&& m.contains_key(victim)
    &&& victim != index
    &&& forall|i: usize| #[trigger]
        m.contains_key(i) ==> prefetch::distance(i as int, index as int) <= prefetch::distance(
            victim as int,
            index as int,
        )
}

fn exec_distance(a: usize, b: usize) -> (d: usize)
    ensures
        d == prefetch::distance(a as int, b as int),
{
    if a < b {
        b - a
    } else {
        a - b
    }
}

impl<T> Cache<T> {
    pub closed spec fn spec_capacity(&self) -> usize {
        self.capacity
    }

    /// No more is held than there is room for, and there is always room for one.
    pub open spec fn wf(&self) -> bool {
        &&& self.spec_capacity() >= 1
        &&& self@.dom().finite()
        &&& self@.len() <= self.spec_capacity()
    }

    pub fn new(capacity: usize) -> (c: Self)
        ensures
            c.wf(),
            c@ == Map::<usize, T>::empty(),
            c.spec_capacity() == (if capacity > 1 {
                capacity
            } else {
                1
            }),
    {
        Cache {
            entries: HashMap::new(),
            capacity: if capacity > 1 {
                capacity
            } else {
                1
            },
        }
    }

    pub fn capacity(&self) -> (n: usize)
        ensures
            n == self.spec_capacity(),
    {
        self.capacity
    }

    pub fn contains(&self, index: usize) -> (r: bool)
        ensures
            r == self@.contains_key(index),
    {
        self.entries.contains_key(&index)
    }

    pub fn get(&self, index: usize) -> (r: Option<&T>)
        ensures
            match r {
                Some(v) => self@.contains_key(index) && *v == self@[index],
                None => !self@.contains_key(index),
            },
    {
        self.entries.get(&index)
    }

    pub fn len(&self) -> (n: usize)
        ensures
            n == self@.len(),
    {
        self.entries.len()
    }

    pub fn is_empty(&self) -> (r: bool)
        ensures
            r == (self@.len() == 0),
    {
        self.entries.len() == 0
    }

    /// Take out the entries under the given indices.
    fn take_out(&mut self, doomed: Vec<usize>) -> (r: Vec<T>)
        requires
            doomed@.no_duplicates(),
            forall|n: int| 0 <= n < doomed@.len() ==> old(self)@.contains_key(#[trigger] doomed@[n]),
        ensures
            final(self).spec_capacity() == old(self).spec_capacity(),
            final(self)@ == old(self)@.remove_keys(doomed@.to_set()),
            values_under(old(self)@, doomed@.to_set(), r@),
    {
        let mut r: Vec<T> = Vec::new();
        let ghost before = self@;
        assert(before.remove_keys(doomed@.take(0).to_set()) == before);
        for n in 0..doomed.len()
            invariant
                doomed@.no_duplicates(),
                forall|k: int|
                    0 <= k < doomed@.len() ==> before.contains_key(#[trigger] doomed@[k]),
                self.spec_capacity() == old(self).spec_capacity(),
                self@ == before.remove_keys(doomed@.take(n as int).to_set()),
                r@ == doomed@.take(n as int).map_values(|i: usize| before[i]),
        {
            let i = doomed[n];
            let ghost done = doomed@.take(n as int);
            let ghost next = doomed@.take(n + 1);
            proof {
                assert(next == done.push(i));
                if done.to_set().contains(i) {
                    let k = choose|k: int| 0 <= k < done.len() && done[k] == i;
                    assert(doomed@[k] == doomed@[n as int]);
                }
                assert(before.contains_key(doomed@[n as int]));
                assert(next.to_set() == done.to_set().insert(i)) by {
                    assert forall|j: usize| next.to_set().contains(j) <==> done.to_set().insert(
                        i,
                    ).contains(j) by {
                        if next.contains(j) {
                            let k = choose|k: int| 0 <= k < next.len() && next[k] == j;
                            if k < n {
                                assert(done[k] == j);
                            }
                        }
                        if done.contains(j) {
                            let k = choose|k: int| 0 <= k < done.len() && done[k] == j;
                            assert(next[k] == j);
                        }
                        assert(next[n as int] == i);
                    }
                }
            }
            if let Some(v) = self.entries.remove(&i) {
                r.push(v);
            }
            assert(self@ == before.remove_keys(next.to_set()));
            assert(r@ == next.map_values(|i: usize| before[i]));
        }
        assert(doomed@.take(doomed@.len() as int) == doomed@);
        r
    }

    /// Drop everything, e.g. after the group list changed and indices shifted.
    pub fn clear(&mut self) -> (r: Vec<T>)
        ensures
            final(self).spec_capacity() == old(self).spec_capacity(),
            final(self)@ == Map::<usize, T>::empty(),
            values_under(old(self)@, old(self)@.dom(), r@),
            old(self).wf() ==> final(self).wf(),
    {
        let keys = table::indices(&self.entries);
        proof {
            assert forall|n: int| 0 <= n < keys@.len() implies self@.contains_key(
                #[trigger] keys@[n],
            ) by {
                assert(keys@.to_set().contains(keys@[n]));
            }
        }
        let r = self.take_out(keys);
        assert(self@ == Map::<usize, T>::empty());
        r
    }

    /// Evict entries outside `centre +/- radius`, optionally keeping one extra index.
    ///
    /// The extra index is the hovered row, whose texture would otherwise be evicted
    /// immediately after upload because it sits far outside the navigation window.
    pub fn retain_window_with(&mut self, centre: usize, radius: usize, keep: Option<usize>) -> (r:
        Vec<T>)
        ensures
            final(self).spec_capacity() == old(self).spec_capacity(),
            final(self)@ == old(self)@.remove_keys(outside(old(self)@, centre, radius, keep)),
            values_under(old(self)@, outside(old(self)@, centre, radius, keep), r@),
            old(self).wf() ==> final(self).wf(),
    {
        let keys = table::indices(&self.entries);
        let mut doomed: Vec<usize> = Vec::new();
        let ghost m = self@;
        for n in 0..keys.len()
            invariant
                m == self@,
                keys@.no_duplicates(),
                keys@.to_set() == m.dom(),
                doomed@.no_duplicates(),
                forall|k: int| 0 <= k < doomed@.len() ==> m.contains_key(#[trigger] doomed@[k]),
                forall|i: usize| #[trigger]
                    doomed@.contains(i) <==> keys@.take(n as int).contains(i) && outside(
                        m,
                        centre,
                        radius,
                        keep,
                    ).contains(i),
        {
            let i = keys[n];
            let ghost was = doomed@;
            proof {
                table::lemma_taken(keys@, n as int);
                assert(keys@.to_set().contains(keys@[n as int]));
            }
            let kept = match keep {
                Some(k) => k == i,
                None => false,
            };
            let inside = exec_distance(i, centre) <= radius;
            if !inside && !kept {
                doomed.push(i);
                proof {
                    table::lemma_pushed(was, i);
                    if was.contains(i) {
                        let done = keys@.take(n as int);
                        let k = choose|k: int| 0 <= k < done.len() && done[k] == i;
                        assert(keys@[k] == keys@[n as int]);
                    }
                }
            }
        }
        proof {
            assert(keys@.take(keys@.len() as int) == keys@);
            assert forall|i: usize| m.contains_key(i) implies keys@.contains(i) by {
                assert(keys@.to_set().contains(i));
            }
            assert(doomed@.to_set() =~= outside(m, centre, radius, keep));
        }
        let r = self.take_out(doomed);
        proof {
            let gone = outside(m, centre, radius, keep);
            if m.dom().finite() {
                assert(self@.dom() =~= m.dom().difference(gone));
                vstd::set_lib::lemma_len_subset(self@.dom(), m.dom());
            }
        }
        r
    }

    /// Insert, then evict the entry furthest from `index` if there is no longer room.
    pub fn insert(&mut self, index: usize, value: T) -> (r: Vec<T>)
        requires
            old(self).wf(),
        ensures
            final(self).wf(),
            final(self).spec_capacity() == old(self).spec_capacity(),
            final(self)@.contains_key(index) && final(self)@[index] == value,
            final(self)@.len() + r@.len() == old(self)@.len() + 1,
            old(self)@.contains_key(index) ==> final(self)@ == old(self)@.insert(index, value) && r@
                == seq![old(self)@[index]],
            !old(self)@.contains_key(index) && old(self)@.len() < old(self).spec_capacity()
                ==> final(self)@ == old(self)@.insert(index, value) && r@ == Seq::<T>::empty(),
            !old(self)@.contains_key(index) && old(self)@.len() == old(self).spec_capacity()
                ==> exists|victim: usize| #[trigger]
                is_victim(old(self)@.insert(index, value), index, victim) && final(self)@ == old(
                    self,
                )@.insert(index, value).remove(victim) && r@ == seq![old(self)@[victim]],
    {
        let ghost before = self@;
        let ghost m = before.insert(index, value);
        let mut evicted: Vec<T> = Vec::new();
        if let Some(old) = self.entries.insert(index, value) {
            evicted.push(old);
        }
        assert(before.contains_key(index) ==> m.dom() =~= before.dom());
        assert(!before.contains_key(index) ==> m.dom() =~= before.dom().insert(index));
        if self.entries.len() > self.capacity {
            let keys = table::indices(&self.entries);
            proof {
                keys@.unique_seq_to_set();
            }
            let mut victim: Option<usize> = None;
            for n in 0..keys.len()
                invariant
                    self@ == m,
                    keys@.to_set() == m.dom(),
                    match victim {
                        Some(v) => {
                            &&& m.contains_key(v)
                            &&& v != index
                            &&& forall|k: int|
                                0 <= k < n ==> prefetch::distance(
                                    #[trigger] keys@[k] as int,
                                    index as int,
                                ) <= prefetch::distance(v as int, index as int)
                        },
                        None => forall|k: int| 0 <= k < n ==> #[trigger] keys@[k] == index,
                    },
            {
                let i = keys[n];
                assert(m.contains_key(i)) by {
                    assert(keys@.to_set().contains(keys@[n as int]));
                }
                if i != index {
                    let replace = match victim {
                        Some(v) => exec_distance(i, index) >= exec_distance(v, index),
                        None => true,
                    };
                    if replace {
                        victim = Some(i);
                    }
                }
            }
            proof {
                assert(keys@.len() >= 2);
                assert(keys@[0] != keys@[1]);
            }
            if let Some(v) = victim {
                proof {
                    assert forall|i: usize| #[trigger] m.contains_key(i) implies prefetch::distance(
                        i as int,
                        index as int,
                    ) <= prefetch::distance(v as int, index as int) by {
                        assert(keys@.to_set().contains(i));
                        let k = choose|k: int| 0 <= k < keys@.len() && keys@[k] == i;
                        assert(prefetch::distance(keys@[k] as int, index as int) <= prefetch::distance(
                            v as int,
                            index as int,
                        ));
                    }
                    assert(is_victim(m, index, v));
                }
                if let Some(gone) = self.entries.remove(&v) {
                    evicted.push(gone);
                }
                assert(self@ == m.remove(v));
                assert(evicted@ == seq![before[v]]);
            }
        } else {
            assert(before.contains_key(index) ==> evicted@ == seq![before[index]]);
        }
        evicted
    }
}

/// A texture plus the metadata needed to draw it.
pub struct Entry<T> {
    pub texture: T,
    pub stored: (u32, u32),
    pub orientation: Orientation,
    /// Colour verdict for the decoded pixels, so a warning can reach the UI.
    pub colour: Verdict,
    /// False until every row has been written. A partially filled texture must not be
    /// drawn, because the unwritten rows hold undefined data.
    pub complete: bool,
}

/// A texture that is free for reuse, and its size.
pub struct Spare<T> {
    pub texture: T,
    pub size: (u32, u32),
}

/// An upload in progress, filled a band of rows at a time.
pub struct Pending {
    pub index: usize,
    pub image: Box<Image>,
    /// Next row to write.
    pub row: u32,
}

/// The cache of textures: group index to uploaded texture, plus a pool of textures to reuse.
///
/// Recycling matters: every frame in a shoot is the same size, so without a pool the
/// program creates and destroys 102 MB textures continuously as the window moves. That
/// churn makes the driver allocate and free large blocks all session.
#[verifier::reject_recursive_types(T)]
pub struct TextureCache<T> {
    cache: Cache<Entry<T>>,
    pool: Vec<Spare<T>>,
    /// Uploads not yet finished, nearest-to-cursor first.
    pending: Vec<Pending>,
}

/// Cap on recycled textures held in reserve, so the pool cannot itself grow without
/// bound if the user opens folders of differing image sizes. Four spares is plenty to absorb
/// the churn of a moving window.
pub const POOL_LIMIT: usize = 4;

/// How many bytes a band is meant to hold: small enough to stay responsive, large enough that
/// per-call overhead does not dominate.
pub const BAND_BYTES: u64 = 0x40_0000;

/// The mathematical content of a [`TextureCache`].
#[verifier::ext_equal]
#[verifier::reject_recursive_types(T)]
pub struct Textures<T> {
    pub entries: Map<usize, Entry<T>>,
    pub capacity: usize,
    pub pool: Seq<Spare<T>>,
    pub pending: Seq<Pending>,
}

impl<T> View for TextureCache<T> {
    type V = Textures<T>;

    closed spec fn view(&self) -> Textures<T> {
        Textures {
            entries: self.cache@,
            capacity: self.cache.spec_capacity(),
            pool: self.pool@,
            pending: self.pending@,
        }
    }
}

/// The pool with evicted textures added, as far as there is room; what is beyond the limit is
/// dropped.
pub open spec fn recycled<T>(pool: Seq<Spare<T>>, evicted: Seq<Entry<T>>) -> Seq<Spare<T>>
    decreases evicted.len(),
{
    if evicted.len() == 0 {
        pool
    } else {
        let p = recycled(pool, evicted.drop_last());
        let e = evicted.last();
        if p.len() < POOL_LIMIT {
            p.push(Spare { texture: e.texture, size: e.stored })
        } else {
            p
        }
    }
}

/// The position of the upload for `index`, or -1.
pub open spec fn pending_at(ps: Seq<Pending>, index: usize) -> int
    decreases ps.len(),
{
    if ps.len() == 0 {
        -1
    } else if pending_at(ps.drop_last(), index) >= 0 {
        pending_at(ps.drop_last(), index)
    } else if ps.last().index == index {
        ps.len() - 1
    } else {
        -1
    }
}

/// The uploads without the one for `index`; the others keep their order.
pub open spec fn without(ps: Seq<Pending>, index: usize) -> Seq<Pending> {
    let at = pending_at(ps, index);
    if at >= 0 {
        ps.remove(at)
    } else {
        ps
    }
}

proof fn lemma_pending_at(ps: Seq<Pending>, index: usize)
    ensures
        -1 <= pending_at(ps, index) < ps.len(),
        pending_at(ps, index) >= 0 ==> ps[pending_at(ps, index)].index == index,
        pending_at(ps, index) < 0 ==> forall|i: int|
            0 <= i < ps.len() ==> (#[trigger] ps[i]).index != index,
        forall|i: int|
            0 <= i < pending_at(ps, index) ==> (#[trigger] ps[i]).index != index,
    decreases ps.len(),
{
    if ps.len() > 0 {
        let init = ps.drop_last();
        lemma_pending_at(init, index);
        assert(forall|i: int| 0 <= i < init.len() ==> init[i] == ps[i]);
        assert forall|i: int|
            pending_at(ps, index) < 0 && 0 <= i < ps.len() implies (#[trigger] ps[i]).index
            != index by {
            if i < init.len() {
                assert(init[i] == ps[i]);
            }
        }
        assert forall|i: int| 0 <= i < pending_at(ps, index) implies (#[trigger] ps[i]).index
            != index by {
            assert(i < init.len());
            assert(init[i] == ps[i]);
        }
    }
}

/// `ps`, in order of distance from `priority`, with `p` added behind every upload that is not
/// further away.
pub open spec fn insert_pending(ps: Seq<Pending>, p: Pending, priority: usize) -> Seq<Pending>
    decreases ps.len(),
{
    if ps.len() > 0 && prefetch::distance(p.index as int, priority as int) < prefetch::distance(
        ps.last().index as int,
        priority as int,
    ) {
        insert_pending(ps.drop_last(), p, priority).push(ps.last())
    } else {
        ps.push(p)
    }
}

/// `ps` in order of distance from `priority`; equally distant ones as they were.
pub open spec fn by_distance(ps: Seq<Pending>, priority: usize) -> Seq<Pending>
    decreases ps.len(),
{
    if ps.len() == 0 {
        ps
    } else {
        insert_pending(by_distance(ps.drop_last(), priority), ps.last(), priority)
    }
}

proof fn lemma_insert_pending(ps: Seq<Pending>, p: Pending, priority: usize, at: int)
    requires
        0 <= at <= ps.len(),
        forall|k: int|
            at <= k < ps.len() ==> prefetch::distance(p.index as int, priority as int)
                < prefetch::distance((#[trigger] ps[k]).index as int, priority as int),
        at > 0 ==> prefetch::distance(p.index as int, priority as int) >= prefetch::distance(
            ps[at - 1].index as int,
            priority as int,
        ),
    ensures
        insert_pending(ps, p, priority) == ps.insert(at, p),
    decreases ps.len(),
{
    if at < ps.len() {
        assert(ps.last() == ps[ps.len() - 1]);
        lemma_insert_pending(ps.drop_last(), p, priority, at);
        assert(ps.insert(at, p) == ps.drop_last().insert(at, p).push(ps.last()));
    } else {
        assert(ps.insert(at, p) == ps.push(p));
    }
}

/// The uploads whose entry is still there.
pub open spec fn still_wanted<T>(ps: Seq<Pending>, entries: Map<usize, Entry<T>>) -> Seq<Pending>
    decreases ps.len(),
{
    if ps.len() == 0 {
        ps
    } else {
        let init = still_wanted(ps.drop_last(), entries);
        if entries.contains_key(ps.last().index) {
            init.push(ps.last())
        } else {
            init
        }
    }
}

/// The pixel buffers of the uploads whose entry is gone.
pub open spec fn unwanted_buffers<T>(
    ps: Seq<Pending>,
    entries: Map<usize, Entry<T>>,
) -> Seq<Vec<u8>>
    decreases ps.len(),
{
    if ps.len() == 0 {
        Seq::empty()
    } else {
        let init = unwanted_buffers(ps.drop_last(), entries);
        if entries.contains_key(ps.last().index) {
            init
        } else {
            init.push(ps.last().image.rgba)
        }
    }
}

/// The number of rows in the next band of an upload.
pub open spec fn band_rows(width: u32, height: u32, row: u32) -> int {
    let fit = BAND_BYTES as int / at_least_one(width as int * 4);
    let rows = at_least_one(fit);
    if rows < height - row {
        rows
    } else {
        height - row
    }
}

pub open spec fn at_least_one(n: int) -> int {
    if n > 1 {
        n
    } else {
        1
    }
}

/// Rows to be written to a texture: `rows` of them from `row` on, which lie at `start..end` of
/// the pixel buffer.
#[derive(Clone, Copy, PartialEq, Eq, Debug, Structural)]
pub struct Band {
    pub index: usize,
    pub width: u32,
    pub row: u32,
    pub rows: u32,
    pub start: usize,
    pub end: usize,
}

/// What to do next while uploading.
pub enum Step {
    /// Nothing more in this frame.
    Stop,
    /// Write these rows, then report [`TextureCache::band_written`].
    Write(Band),
    /// The pixel buffer was shorter than the declared dimensions: the upload was given up.
    /// Its buffer comes back.
    TooShort(usize, Vec<u8>),
    /// The texture is gone: the upload was given up. Its buffer comes back.
    Gone(usize, Vec<u8>),
}

impl<T> Textures<T> {
    /// The nearest upload must wait for the next frame: it is not the one on screen, something
    /// has been written already, and the time is up.
    pub open spec fn must_wait(self, priority: usize, wrote_any: bool, time_up: bool) -> bool {
        self.pending[0].index != priority && wrote_any && time_up
    }

    /// The next band of the nearest upload.
    pub open spec fn next_rows(self) -> (int, int, int) {
        let p = self.pending[0];
        let rows = band_rows(p.image.width, p.image.height, p.row);
        let row_bytes = p.image.width * 4;
        (rows, p.row * row_bytes, p.row * row_bytes + rows * row_bytes)
    }

    /// What to do next.
    pub open spec fn next_step(self, priority: usize, wrote_any: bool, time_up: bool) -> Step {
        if self.pending.len() == 0 || self.must_wait(priority, wrote_any, time_up) {
            Step::Stop
        } else {
            let p = self.pending[0];
            let (rows, start, end) = self.next_rows();
            if end > p.image.rgba@.len() {
                Step::TooShort(p.index, p.image.rgba)
            } else if !self.entries.contains_key(p.index) {
                Step::Gone(p.index, p.image.rgba)
            } else {
                Step::Write(
                    Band {
                        index: p.index,
                        width: p.image.width,
                        row: p.row,
                        rows: rows as u32,
                        start: start as usize,
                        end: end as usize,
                    },
                )
            }
        }
    }

    /// The textures once the nearest upload has been given up.
    pub open spec fn given_up(self) -> Textures<T> {
        Textures { pending: self.pending.remove(0), ..self }
    }

    /// The textures once the next `rows` rows of the nearest upload are in its texture.
    pub open spec fn written(self, rows: u32) -> Textures<T> {
        let p = self.pending[0];
        if p.row + rows < p.image.height {
            Textures {
                pending: self.pending.update(0, Pending { row: (p.row + rows) as u32, ..p }),
                ..self
            }
        } else {
            Textures {
                pending: self.pending.remove(0),
                entries: completed(self.entries, p.index),
                ..self
            }
        }
    }

    /// The textures at the start of a frame: what is no longer wanted is dropped, and what is
    /// left put in order.
    pub open spec fn started(self, priority: usize) -> Textures<T> {
        Textures {
            pending: by_distance(still_wanted(self.pending, self.entries), priority),
            ..self
        }
    }

    /// The textures at the end of a frame's uploads, when the readings of the clock say whether
    /// the time is up. There is no end when there are too few readings.
    pub open spec fn pumped(self, priority: usize, wrote_any: bool, clock: Seq<bool>) -> Option<
        Textures<T>,
    >
        decreases clock.len(),
    {
        if clock.len() == 0 {
            None
        } else {
            match self.next_step(priority, wrote_any, clock[0]) {
                Step::Stop => Some(self),
                Step::Write(band) => self.written(band.rows).pumped(priority, true, clock.skip(1)),
                _ => self.given_up().pumped(priority, wrote_any, clock.skip(1)),
            }
        }
    }

    /// Every upload has rows left to write, no index has two, and a texture with rows left to
    /// write is not marked complete, so it is never drawn.
    pub open spec fn wf(self) -> bool {
        &&& self.capacity >= 1
        &&& self.entries.dom().finite()
        &&& self.entries.len() <= self.capacity
        &&& self.pool.len() <= POOL_LIMIT
        &&& forall|i: int|
            0 <= i < self.pending.len() ==> (#[trigger] self.pending[i]).row
                < self.pending[i].image.height
        &&& forall|i: int, j: int|
            0 <= i < j < self.pending.len() ==> (#[trigger] self.pending[i]).index != (
            #[trigger] self.pending[j]).index
        &&& forall|i: int|
            0 <= i < self.pending.len() && self.entries.contains_key(
                (#[trigger] self.pending[i]).index,
            ) ==> !self.entries[self.pending[i].index].complete
    }
}

/// What is drawn for an image: its size, orientation and colour verdict. No row has been
/// written yet.
pub open spec fn entry_of<T>(image: Image, texture: T, e: Entry<T>) -> bool {
    &&& e.texture == texture
    &&& e.stored == (image.width, image.height)
    &&& e.orientation.spec_value() == (if 1 <= image.orientation <= 8 {
        image.orientation
    } else {
        1
    })
    &&& e.colour == icc::spec_classify(tiff::opt_bytes(image.icc), image.color_space)
    &&& !e.complete
}

impl<T> TextureCache<T> {
    pub fn new(capacity: usize) -> (c: Self)
        ensures
            c@ == (Textures::<T> {
                entries: Map::empty(),
                capacity: if capacity > 1 {
                    capacity
                } else {
                    1
                },
                pool: Seq::empty(),
                pending: Seq::empty(),
            }),
            c@.wf(),
    {
        TextureCache { cache: Cache::new(capacity), pool: Vec::new(), pending: Vec::new() }
    }

    pub fn contains(&self, index: usize) -> (r: bool)
        ensures
            r == self@.entries.contains_key(index),
    {
        self.cache.contains(index)
    }

    pub fn get(&self, index: usize) -> (r: Option<&Entry<T>>)
        ensures
            match r {
                Some(e) => self@.entries.contains_key(index) && *e == self@.entries[index],
                None => !self@.entries.contains_key(index),
            },
    {
        self.cache.get(index)
    }

    pub fn len(&self) -> (n: usize)
        ensures
            n == self@.entries.len(),
    {
        self.cache.len()
    }

    pub fn is_empty(&self) -> (r: bool)
        ensures
            r == (self@.entries.len() == 0),
    {
        self.cache.is_empty()
    }

    pub fn pooled(&self) -> (n: usize)
        ensures
            n == self@.pool.len(),
    {
        self.pool.len()
    }

    /// Number of uploads still in flight.
    pub fn pending_len(&self) -> (n: usize)
        ensures
            n == self@.pending.len(),
    {
        self.pending.len()
    }

    /// True when the texture for `index` is fully written and safe to draw.
    pub fn is_complete(&self, index: usize) -> (r: bool)
        ensures
            r == (self@.entries.contains_key(index) && self@.entries[index].complete),
    {
        match self.cache.get(index) {
            Some(e) => e.complete,
            None => false,
        }
    }

    /// Keep evicted textures for reuse, up to the pool limit.
    fn recycle(&mut self, evicted: Vec<Entry<T>>)
        ensures
            final(self)@ == (Textures { pool: recycled(old(self)@.pool, evicted@), ..old(self)@ }),
            old(self)@.pool.len() <= POOL_LIMIT ==> final(self)@.pool.len() <= POOL_LIMIT,
            old(self).cache.wf() ==> final(self).cache.wf(),
            final(self).cache == old(self).cache,
    {
        let ghost before = *self;
        let ghost all = evicted@;
        let mut n: Ghost<int> = Ghost(0);
        assert(recycled(before.pool@, all.take(0)) == before.pool@);
        for e in it: evicted
            invariant
                it.seq() == all,
                n@ == it.index(),
                self.cache == before.cache,
                self.pending@ == before.pending@,
                self.pool@ == recycled(before.pool@, all.take(n@)),
                before.pool@.len() <= POOL_LIMIT ==> self.pool@.len() <= POOL_LIMIT,
        {
            proof {
                assert(e == all[n@]);
                assert(all.take(n@ + 1).drop_last() == all.take(n@));
                assert(all.take(n@ + 1).last() == e);
            }
            if self.pool.len() < POOL_LIMIT {
                self.pool.push(Spare { texture: e.texture, size: e.stored });
            }
            proof {
                n@ = n@ + 1;
            }
        }
        assert(all.take(n@) == all);
    }

    /// Drop every texture, recycling what the pool has room for.
    pub fn clear(&mut self)
        ensures
            exists|evicted: Seq<Entry<T>>| #[trigger]
                values_under(old(self)@.entries, old(self)@.entries.dom(), evicted) && final(self)@
                    == (Textures {
                    entries: Map::empty(),
                    pool: recycled(old(self)@.pool, evicted),
                    ..old(self)@
                }),
            old(self)@.wf() ==> final(self)@.wf(),
    {
        let ghost before = self@;
        let evicted = self.cache.clear();
        assert(values_under(before.entries, before.entries.dom(), evicted@));
        self.recycle(evicted);
        assert(self@.pending == before.pending);
    }

    /// Evict textures outside `centre +/- radius`, but for the one to keep, recycling what the
    /// pool has room for.
    pub fn retain_window_with(&mut self, centre: usize, radius: usize, keep: Option<usize>)
        ensures
            ({
                let gone = outside(old(self)@.entries, centre, radius, keep);
                exists|evicted: Seq<Entry<T>>| #[trigger]
                    values_under(old(self)@.entries, gone, evicted) && final(self)@ == (Textures {
                        entries: old(self)@.entries.remove_keys(gone),
                        pool: recycled(old(self)@.pool, evicted),
                        ..old(self)@
                    })
            }),
            old(self)@.wf() ==> final(self)@.wf(),
    {
        let ghost before = self@;
        let evicted = self.cache.retain_window_with(centre, radius, keep);
        assert(values_under(
            before.entries,
            outside(before.entries, centre, radius, keep),
            evicted@,
        ));
        self.recycle(evicted);
        assert(self@.pending == before.pending);
    }

    /// Take a pooled texture of exactly this size, if one is available. A shoot's frames all
    /// have the same dimensions, so this is the common case.
    pub fn take_pooled(&mut self, width: u32, height: u32) -> (r: Option<T>)
        ensures
            match r {
                Some(t) => exists|i: int|
                    {
                        &&& 0 <= i < old(self)@.pool.len()
                        &&& (#[trigger] old(self)@.pool[i]).size == (width, height)
                        &&& t == old(self)@.pool[i].texture
                        &&& forall|k: int|
                            0 <= k < i ==> (#[trigger] old(self)@.pool[k]).size != (width, height)
                        &&& final(self)@ == (Textures {
                            pool: old(self)@.pool.update(
                                i,
                                old(self)@.pool.last(),
                            ).drop_last(),
                            ..old(self)@
                        })
                    },
                None => final(self)@ == old(self)@ && forall|k: int|
                    0 <= k < old(self)@.pool.len() ==> (#[trigger] old(self)@.pool[k]).size != (
                        width,
                        height,
                    ),
            },
            old(self)@.wf() ==> final(self)@.wf(),
    {
        let ghost before = self@;
        let len: usize = self.pool.len();
        for i in 0..len
            invariant
                len == before.pool.len(),
                self@ == before,
                before == old(self)@,
                forall|k: int| 0 <= k < i ==> (#[trigger] before.pool[k]).size != (width, height),
        {
            if self.pool[i].size.0 == width && self.pool[i].size.1 == height {
                assert(before.pool[i as int].size == (width, height));
                let spare = self.pool.swap_remove(i);
                assert(self@.pending == before.pending);
                return Some(spare.texture);
            }
        }
        None
    }

    /// Take the upload for `index` off the list, handing its pixels back.
    fn retire(&mut self, index: usize) -> (r: Option<Vec<u8>>)
        ensures
            final(self)@ == (Textures {
                pending: without(old(self)@.pending, index),
                ..old(self)@
            }),
            final(self).cache == old(self).cache,
            match r {
                Some(buf) => pending_at(old(self)@.pending, index) >= 0 && buf
                    == old(self)@.pending[pending_at(old(self)@.pending, index)].image.rgba,
                None => pending_at(old(self)@.pending, index) < 0,
            },
    {
        let ghost ps = self.pending@;
        proof {
            lemma_pending_at(ps, index);
        }
        let len: usize = self.pending.len();
        for i in 0..len
            invariant
                len == ps.len(),
                ps == self.pending@,
                *self == *old(self),
                -1 <= pending_at(ps, index) < ps.len(),
                pending_at(ps, index) >= 0 ==> ps[pending_at(ps, index)].index == index,
                pending_at(ps, index) < 0 ==> forall|k: int|
                    0 <= k < ps.len() ==> (#[trigger] ps[k]).index != index,
                forall|k: int|
                    0 <= k < pending_at(ps, index) ==> (#[trigger] ps[k]).index != index,
                forall|k: int| 0 <= k < i ==> (#[trigger] ps[k]).index != index,
        {
            if self.pending[i].index == index {
                assert(pending_at(ps, index) == i);
                // Keeps the order: the list stands nearest first, and reshuffling it while
                // uploading would upload a further image before a nearer one.
                let p = self.pending.remove(i);
                let image = *p.image;
                return Some(image.rgba);
            }
        }
        None
    }

    /// Start uploading an image into `texture`. Rows are written later; see
    /// [`TextureCache::next_band`].
    ///
    /// A 25.6 MP texture is ~102 MB, and writing it costs a CPU memcpy into a staging buffer
    /// -- most of a 60 Hz frame. Doing that in one call makes the window stutter every time
    /// an image lands, so the transfer is split into bands and spread across frames under a
    /// time budget. The texture is not drawn until every band has been written.
    ///
    /// A zero-sized image has no texture and is refused: see [`wants_texture`]. Of an earlier
    /// upload for the same index the pixels come back.
    pub fn queue_upload(&mut self, index: usize, image: Box<Image>, texture: T) -> (r: Option<
        Vec<u8>,
    >)
        requires
            old(self)@.wf(),
            image.width > 0,
            image.height > 0,
        ensures
            final(self)@.wf(),
            final(self)@.capacity == old(self)@.capacity,
            final(self)@.pending == without(old(self)@.pending, index).push(
                Pending { index, image, row: 0 },
            ),
            match r {
                Some(buf) => pending_at(old(self)@.pending, index) >= 0 && buf
                    == old(self)@.pending[pending_at(old(self)@.pending, index)].image.rgba,
                None => pending_at(old(self)@.pending, index) < 0,
            },
            exists|e: Entry<T>, evicted: Seq<Entry<T>>|
                {
                    &&& #[trigger] entry_of(*image, texture, e)
                    &&& #[trigger] inserted(
                        old(self)@.entries,
                        old(self)@.capacity,
                        index,
                        e,
                        final(self)@.entries,
                        evicted,
                    )
                    &&& final(self)@.pool == recycled(old(self)@.pool, evicted)
                },
    {
        let ghost before = self@;
        let icc = match &image.icc {
            Some(p) => Some(p.as_slice()),
            None => None,
        };
        let entry = Entry {
            texture,
            stored: (image.width, image.height),
            orientation: Orientation::new(image.orientation),
            // Classified here, where the profile is still in hand: the ring hands the pixels
            // over exactly once, so this is the only chance to see it.
            colour: icc::classify(icc, image.color_space),
            complete: false,
        };
        let ghost e = entry;
        assert(entry_of(*image, texture, e));
        let evicted = self.cache.insert(index, entry);
        let ghost gone = evicted@;
        assert(inserted(before.entries, before.capacity, index, e, self.cache@, gone));
        self.recycle(evicted);
        // Replace any earlier upload for this index, recovering its buffer.
        let r = self.retire(index);
        proof {
            lemma_without(before, index);
        }
        self.pending.push(Pending { index, image, row: 0 });
        r
    }

    /// Get ready to upload in this frame. Uploads whose entry has been evicted are dropped: the
    /// work is no longer wanted, but their buffers are, and come back. The image on screen
    /// finishes first; neighbours fill in behind it.
    pub fn start_pump(&mut self, priority: usize) -> (r: Vec<Vec<u8>>)
        requires
            old(self)@.wf(),
        ensures
            final(self)@.wf(),
            final(self)@ == old(self)@.started(priority),
            r@ == unwanted_buffers(old(self)@.pending, old(self)@.entries),
    {
        let ghost before = self@;
        let mut all: Vec<Pending> = Vec::new();
        std::mem::swap(&mut all, &mut self.pending);
        let ghost ps = all@;
        let mut kept: Vec<Pending> = Vec::new();
        let mut buffers: Vec<Vec<u8>> = Vec::new();
        let mut n: Ghost<int> = Ghost(0);
        assert(ps.take(0) =~= Seq::<Pending>::empty());
        assert(self.cache@ == before.entries);
        for p in it: all
            invariant
                it.seq() == ps,
                n@ == it.index(),
                self.cache@ == before.entries,
                self.cache.spec_capacity() == before.capacity,
                self.pool@ == before.pool,
                kept@ == by_distance(still_wanted(ps.take(n@), before.entries), priority),
                buffers@ == unwanted_buffers(ps.take(n@), before.entries),
        {
            let ghost head = ps.take(n@ + 1);
            proof {
                assert(p == ps[n@]);
                assert(head.drop_last() == ps.take(n@));
                assert(head.last() == p);
            }
            if self.cache.contains(p.index) {
                let mut at: usize = kept.len();
                let d = exec_distance(p.index, priority);
                let ghost sorted = kept@;
                while at > 0 && d < exec_distance(kept[at - 1].index, priority)
                    invariant
                        at <= kept@.len(),
                        kept@ == sorted,
                        d == prefetch::distance(p.index as int, priority as int),
                        forall|k: int|
                            at <= k < sorted.len() ==> d < prefetch::distance(
                                (#[trigger] sorted[k]).index as int,
                                priority as int,
                            ),
                    decreases at,
                {
                    at = at - 1;
                }
                proof {
                    lemma_insert_pending(sorted, p, priority, at as int);
                    let w = still_wanted(ps.take(n@), before.entries);
                    assert(w.push(p).drop_last() == w);
                }
                kept.insert(at, p);
            } else {
                let image = *p.image;
                buffers.push(image.rgba);
            }
            proof {
                n@ = n@ + 1;
            }
        }
        assert(ps.take(n@) == ps);
        self.pending = kept;
        proof {
            lemma_sorted_wf(ps, before.entries, priority);
            assert forall|i: int|
                0 <= i < self.pending@.len() && before.entries.contains_key(
                    (#[trigger] self.pending@[i]).index,
                ) implies !before.entries[self.pending@[i].index].complete by {
                let k = choose|k: int| 0 <= k < ps.len() && ps[k] == self.pending@[i];
                assert(before.pending[k] == self.pending@[i]);
            }
        }
        buffers
    }

    /// What to upload next. `wrote_any` says whether a band has been written in this frame, and
    /// `time_up` whether the frame's budget is spent.
    ///
    /// `priority` itself is exempt from the budget and is finished in one go. The budget
    /// exists to stop a background upload stealing a frame from a *visible* image, but
    /// while `priority` is incomplete nothing is drawn at all, so spreading its upload over
    /// four vsync frames just means four frames of blank screen instead of one long one.
    /// Neighbours still pay the budget, but at least one band of progress is made per frame
    /// so a tiny budget cannot stall the queue entirely.
    pub fn next_band(&mut self, priority: usize, wrote_any: bool, time_up: bool) -> (step: Step)
        requires
            old(self)@.wf(),
        ensures
            final(self)@.wf(),
            step == old(self)@.next_step(priority, wrote_any, time_up),
            final(self)@ == (match step {
                Step::Stop | Step::Write(_) => old(self)@,
                Step::TooShort(..) | Step::Gone(..) => old(self)@.given_up(),
            }),
            step matches Step::Write(band) ==> old(self)@.pending.len() > 0 && 0 < band.rows
                <= old(self)@.pending[0].image.height - old(self)@.pending[0].row,
    {
        if self.pending.len() == 0 {
            return Step::Stop;
        }
        let ghost before = self@;
        let index = self.pending[0].index;
        if index != priority && wrote_any && time_up {
            return Step::Stop;
        }
        let (width, height, row): (u32, u32, u32) = (
            self.pending[0].image.width,
            self.pending[0].image.height,
            self.pending[0].row,
        );
        let row_bytes: u64 = width as u64 * 4;
        let fit: u64 = BAND_BYTES / (if row_bytes > 1 {
            row_bytes
        } else {
            1
        });
        proof {
            assert(fit <= BAND_BYTES) by (nonlinear_arith)
                requires
                    fit == BAND_BYTES / at_least_one(row_bytes as int) as u64,
                    at_least_one(row_bytes as int) >= 1,
                    at_least_one(row_bytes as int) <= u64::MAX,
            ;
        }
        let wanted: u64 = if fit > 1 {
            fit
        } else {
            1
        };
        let left: u32 = height - row;
        let rows: u32 = if wanted < left as u64 {
            wanted as u32
        } else {
            left
        };
        assert(rows == band_rows(width, height, row));
        proof {
            assert(row * row_bytes <= 0xFFFF_FFFF * 0x4_0000_0000) by (nonlinear_arith)
                requires
                    row <= 0xFFFF_FFFF,
                    row_bytes <= 0x4_0000_0000,
            ;
            assert(rows * row_bytes <= 0xFFFF_FFFF * 0x4_0000_0000) by (nonlinear_arith)
                requires
                    rows <= 0xFFFF_FFFF,
                    row_bytes <= 0x4_0000_0000,
            ;
        }
        let start: u128 = row as u128 * row_bytes as u128;
        let end: u128 = start + rows as u128 * row_bytes as u128;
        let len: usize = self.pending[0].image.rgba.len();
        proof {
            lemma_without(before, index);
            lemma_first(before, index);
        }
        if end > len as u128 {
            // Shorter than the declared dimensions: give up on this one.
            let p = self.pending.remove(0);
            let image = *p.image;
            return Step::TooShort(index, image.rgba);
        }
        if !self.cache.contains(index) {
            let p = self.pending.remove(0);
            let image = *p.image;
            return Step::Gone(index, image.rgba);
        }
        Step::Write(Band { index, width, row, rows, start: start as usize, end: end as usize })
    }

    /// The pixels of the band that is to be written.
    pub fn band_pixels(&self, band: &Band) -> (r: &[u8])
        requires
            self@.pending.len() > 0,
            band.start <= band.end <= self@.pending[0].image.rgba@.len(),
        ensures
            r@ == self@.pending[0].image.rgba@.subrange(band.start as int, band.end as int),
    {
        vstd::slice::slice_subrange(self.pending[0].image.rgba.as_slice(), band.start, band.end)
    }

    /// The nearest upload's next `rows` rows are in its texture. When they were the last, the
    /// texture may be drawn, and the pixels come back.
    pub fn band_written(&mut self, rows: u32) -> (r: Option<Vec<u8>>)
        requires
            old(self)@.wf(),
            old(self)@.pending.len() > 0,
            rows <= old(self)@.pending[0].image.height - old(self)@.pending[0].row,
        ensures
            final(self)@.wf(),
            final(self)@ == old(self)@.written(rows),
            r == ({
                let p = old(self)@.pending[0];
                if p.row + rows < p.image.height {
                    None
                } else {
                    Some(p.image.rgba)
                }
            }),
    {
        let ghost before = self@;
        let ghost first = before.pending[0];
        let row: u32 = self.pending[0].row + rows;
        if row < self.pending[0].image.height {
            let mut all: Vec<Pending> = Vec::new();
            std::mem::swap(&mut all, &mut self.pending);
            let p = all.remove(0);
            all.insert(0, Pending { index: p.index, image: p.image, row });
            self.pending = all;
            proof {
                assert(self.pending@ == before.pending.update(0, Pending { row, ..first }));
                assert forall|i: int| 0 <= i < self.pending@.len() implies (
                #[trigger] self.pending@[i]).row < self.pending@[i].image.height by {
                    if i > 0 {
                        assert(self.pending@[i] == before.pending[i]);
                    }
                }
                assert forall|i: int, j: int| 0 <= i < j < self.pending@.len() implies (
                #[trigger] self.pending@[i]).index != (#[trigger] self.pending@[j]).index by {
                    assert(self.pending@[i].index == before.pending[i].index);
                    assert(self.pending@[j].index == before.pending[j].index);
                }
            }
            return None;
        }
        let index = self.pending[0].index;
        proof {
            lemma_first(before, index);
            lemma_without(before, index);
        }
        let p = self.pending.remove(0);
        self.cache.complete(index);
        let image = *p.image;
        Some(image.rgba)
    }
}

/// The entries once the texture under `index` is fully written.
pub open spec fn completed<T>(entries: Map<usize, Entry<T>>, index: usize) -> Map<
    usize,
    Entry<T>,
> {
    if entries.contains_key(index) {
        entries.insert(index, Entry { complete: true, ..entries[index] })
    } else {
        entries
    }
}

impl<T> Cache<Entry<T>> {
    /// Mark the texture under `index` as fully written.
    fn complete(&mut self, index: usize)
        ensures
            final(self)@ == completed(old(self)@, index),
            final(self).spec_capacity() == old(self).spec_capacity(),
            old(self).wf() ==> final(self).wf(),
    {
        let ghost before = self@;
        if let Some(mut e) = self.entries.remove(&index) {
            e.complete = true;
            self.entries.insert(index, e);
            assert(self@ == completed(before, index));
            assert(self@.dom() =~= before.dom());
        }
    }
}

/// `to` is `from` with `e` under `index`; `gone` is what had to leave.
pub open spec fn inserted<T>(
    from: Map<usize, Entry<T>>,
    capacity: usize,
    index: usize,
    e: Entry<T>,
    to: Map<usize, Entry<T>>,
    gone: Seq<Entry<T>>,
) -> bool {
    if from.contains_key(index) {
        to == from.insert(index, e) && gone == seq![from[index]]
    } else if from.len() < capacity {
        to == from.insert(index, e) && gone == Seq::<Entry<T>>::empty()
    } else {
        exists|victim: usize| #[trigger]
            is_victim(from.insert(index, e), index, victim) && to == from.insert(index, e).remove(
                victim,
            ) && gone == seq![from[victim]]
    }
}

/// Whether an image can be uploaded at all: a zero-sized texture is invalid.
pub fn wants_texture(image: &Image) -> (r: bool)
    ensures
        r == (image.width > 0 && image.height > 0),
{
    image.width > 0 && image.height > 0
}

/// Taking an upload off a good list leaves a good list without that index.
proof fn lemma_without<T>(t: Textures<T>, index: usize)
    requires
        t.wf(),
    ensures
        (Textures { pending: without(t.pending, index), ..t }).wf(),
        forall|i: int|
            0 <= i < without(t.pending, index).len() ==> (#[trigger] without(
                t.pending,
                index,
            )[i]).index != index,
{
    lemma_pending_at(t.pending, index);
    let at = pending_at(t.pending, index);
    let rest = without(t.pending, index);
    if at >= 0 {
        assert forall|i: int| 0 <= i < rest.len() implies rest[i] == t.pending[if i < at {
            i
        } else {
            i + 1
        }] by {}
        assert forall|i: int| 0 <= i < rest.len() implies (#[trigger] rest[i]).index != index by {
            let k = if i < at {
                i
            } else {
                i + 1
            };
            assert(rest[i] == t.pending[k]);
            if k < at {
                assert(t.pending[k].index != t.pending[at].index);
            } else {
                assert(t.pending[at].index != t.pending[k].index);
            }
        }
    }
}

/// The upload for the first index is the first one.
proof fn lemma_first<T>(t: Textures<T>, index: usize)
    requires
        t.pending.len() > 0,
        t.pending[0].index == index,
    ensures
        pending_at(t.pending, index) == 0,
        without(t.pending, index) == t.pending.remove(0),
{
    lemma_pending_at(t.pending, index);
    if pending_at(t.pending, index) > 0 {
        assert(t.pending[0].index != index);
    }
}

/// Good uploads: rows left to write, and no index twice.
spec fn uploads_ok(ps: Seq<Pending>) -> bool {
    &&& forall|i: int| 0 <= i < ps.len() ==> (#[trigger] ps[i]).row < ps[i].image.height
    &&& forall|i: int, j: int|
        0 <= i < j < ps.len() ==> (#[trigger] ps[i]).index != (#[trigger] ps[j]).index
}

proof fn lemma_wanted_ok<T>(ps: Seq<Pending>, entries: Map<usize, Entry<T>>)
    requires
        uploads_ok(ps),
    ensures
        uploads_ok(still_wanted(ps, entries)),
        forall|i: int|
            0 <= i < still_wanted(ps, entries).len() ==> ps.contains(
                #[trigger] still_wanted(ps, entries)[i],
            ),
    decreases ps.len(),
{
    if ps.len() > 0 {
        let init = ps.drop_last();
        assert(forall|i: int| 0 <= i < init.len() ==> init[i] == ps[i]);
        lemma_wanted_ok(init, entries);
        let w = still_wanted(ps, entries);
        let wi = still_wanted(init, entries);
        assert forall|i: int| 0 <= i < w.len() implies ps.contains(#[trigger] w[i]) by {
            if i < wi.len() {
                assert(w[i] == wi[i]);
                let k = choose|k: int| 0 <= k < init.len() && init[k] == wi[i];
                assert(ps[k] == wi[i]);
            } else {
                assert(ps[ps.len() - 1] == w[i]);
            }
        }
        assert forall|i: int, j: int| 0 <= i < j < w.len() implies (#[trigger] w[i]).index != (
        #[trigger] w[j]).index by {
            assert(w[i] == wi[i]);
            if j < wi.len() {
                assert(w[j] == wi[j]);
            } else {
                let k = choose|k: int| 0 <= k < init.len() && init[k] == wi[i];
                assert(ps[k].index != ps[ps.len() - 1].index);
            }
        }
    }
}

proof fn lemma_insert_ok(ps: Seq<Pending>, p: Pending, priority: usize)
    requires
        uploads_ok(ps),
        p.row < p.image.height,
        forall|i: int| 0 <= i < ps.len() ==> (#[trigger] ps[i]).index != p.index,
    ensures
        uploads_ok(insert_pending(ps, p, priority)),
        forall|i: int|
            0 <= i < insert_pending(ps, p, priority).len() ==> #[trigger] insert_pending(
                ps,
                p,
                priority,
            )[i] == p || ps.contains(insert_pending(ps, p, priority)[i]),
    decreases ps.len(),
{
    let r = insert_pending(ps, p, priority);
    if ps.len() > 0 && prefetch::distance(p.index as int, priority as int) < prefetch::distance(
        ps.last().index as int,
        priority as int,
    ) {
        let init = ps.drop_last();
        assert(forall|i: int| 0 <= i < init.len() ==> init[i] == ps[i]);
        lemma_insert_ok(init, p, priority);
        let s = insert_pending(init, p, priority);
        assert forall|i: int| 0 <= i < r.len() implies #[trigger] r[i] == p || ps.contains(
            r[i],
        ) by {
            if i < s.len() {
                assert(r[i] == s[i]);
                if s[i] != p {
                    let k = choose|k: int| 0 <= k < init.len() && init[k] == s[i];
                    assert(ps[k] == s[i]);
                }
            } else {
                assert(ps[ps.len() - 1] == r[i]);
            }
        }
        assert forall|i: int| 0 <= i < r.len() implies (#[trigger] r[i]).row
            < r[i].image.height by {
            if i < s.len() {
                assert(r[i] == s[i]);
            } else {
                assert(ps[ps.len() - 1] == r[i]);
            }
        }
        assert forall|i: int, j: int| 0 <= i < j < r.len() implies (#[trigger] r[i]).index != (
        #[trigger] r[j]).index by {
            assert(r[i] == s[i]);
            if j < s.len() {
                assert(r[j] == s[j]);
            } else {
                assert(r[j] == ps[ps.len() - 1]);
                if s[i] != p {
                    let k = choose|k: int| 0 <= k < init.len() && init[k] == s[i];
                    assert(ps[k].index != ps[ps.len() - 1].index);
                }
            }
        }
    } else {
        assert forall|i: int| 0 <= i < r.len() implies #[trigger] r[i] == p || ps.contains(
            r[i],
        ) by {
            if i < ps.len() {
                assert(ps[i] == r[i]);
            }
        }
    }
}

proof fn lemma_by_distance_ok(ps: Seq<Pending>, priority: usize)
    requires
        uploads_ok(ps),
    ensures
        uploads_ok(by_distance(ps, priority)),
        forall|i: int|
            0 <= i < by_distance(ps, priority).len() ==> ps.contains(
                #[trigger] by_distance(ps, priority)[i],
            ),
    decreases ps.len(),
{
    if ps.len() > 0 {
        let init = ps.drop_last();
        assert(forall|i: int| 0 <= i < init.len() ==> init[i] == ps[i]);
        lemma_by_distance_ok(init, priority);
        let s = by_distance(init, priority);
        let last = ps.last();
        assert(last == ps[ps.len() - 1]);
        assert forall|i: int| 0 <= i < s.len() implies (#[trigger] s[i]).index != last.index by {
            let k = choose|k: int| 0 <= k < init.len() && init[k] == s[i];
            assert(ps[k].index != ps[ps.len() - 1].index);
        }
        lemma_insert_ok(s, last, priority);
        let r = by_distance(ps, priority);
        assert forall|i: int| 0 <= i < r.len() implies ps.contains(#[trigger] r[i]) by {
            if r[i] != last {
                let k = choose|k: int| 0 <= k < s.len() && s[k] == r[i];
                let m = choose|m: int| 0 <= m < init.len() && init[m] == s[k];
                assert(ps[m] == r[i]);
            }
        }
    }
}

proof fn lemma_sorted_wf<T>(ps: Seq<Pending>, entries: Map<usize, Entry<T>>, priority: usize)
    requires
        uploads_ok(ps),
    ensures
        uploads_ok(by_distance(still_wanted(ps, entries), priority)),
        forall|i: int|
            0 <= i < by_distance(still_wanted(ps, entries), priority).len() ==> ps.contains(
                #[trigger] by_distance(still_wanted(ps, entries), priority)[i],
            ),
{
    lemma_wanted_ok(ps, entries);
    let w = still_wanted(ps, entries);
    lemma_by_distance_ok(w, priority);
    let r = by_distance(w, priority);
    assert forall|i: int| 0 <= i < r.len() implies ps.contains(#[trigger] r[i]) by {
        let k = choose|k: int| 0 <= k < w.len() && w[k] == r[i];
        assert(ps.contains(w[k]));
    }
}

/// In order of distance from `priority`.
pub open spec fn nearest_first(ps: Seq<Pending>, priority: usize) -> bool {
    forall|i: int, j: int|
        0 <= i < j < ps.len() ==> prefetch::distance(
            (#[trigger] ps[i]).index as int,
            priority as int,
        ) <= prefetch::distance((#[trigger] ps[j]).index as int, priority as int)
}

proof fn lemma_insert_nearest(ps: Seq<Pending>, p: Pending, priority: usize)
    requires
        nearest_first(ps, priority),
    ensures
        nearest_first(insert_pending(ps, p, priority), priority),
        insert_pending(ps, p, priority).to_multiset() == ps.to_multiset().insert(p),
        insert_pending(ps, p, priority).len() == ps.len() + 1,
        forall|i: int|
            0 <= i < insert_pending(ps, p, priority).len() ==> #[trigger] insert_pending(
                ps,
                p,
                priority,
            )[i] == p || ps.contains(insert_pending(ps, p, priority)[i]),
    decreases ps.len(),
{
    broadcast use vstd::seq_lib::group_to_multiset_ensures;

    let r = insert_pending(ps, p, priority);
    if ps.len() > 0 && prefetch::distance(p.index as int, priority as int) < prefetch::distance(
        ps.last().index as int,
        priority as int,
    ) {
        let init = ps.drop_last();
        assert(forall|i: int| 0 <= i < init.len() ==> init[i] == ps[i]);
        lemma_insert_nearest(init, p, priority);
        let s = insert_pending(init, p, priority);
        assert(ps == init.push(ps.last()));
        assert(r.to_multiset() =~= ps.to_multiset().insert(p));
        assert forall|i: int| 0 <= i < r.len() implies #[trigger] r[i] == p || ps.contains(
            r[i],
        ) by {
            if i < s.len() {
                assert(r[i] == s[i]);
                if s[i] != p {
                    let k = choose|k: int| 0 <= k < init.len() && init[k] == s[i];
                    assert(ps[k] == s[i]);
                }
            } else {
                assert(ps[ps.len() - 1] == r[i]);
            }
        }
        assert forall|i: int, j: int| 0 <= i < j < r.len() implies prefetch::distance(
            (#[trigger] r[i]).index as int,
            priority as int,
        ) <= prefetch::distance((#[trigger] r[j]).index as int, priority as int) by {
            assert(r[i] == s[i]);
            if j < s.len() {
                assert(r[j] == s[j]);
            } else {
                assert(r[j] == ps[ps.len() - 1]);
                if s[i] != p {
                    let k = choose|k: int| 0 <= k < init.len() && init[k] == s[i];
                    assert(ps[k] == s[i]);
                }
            }
        }
    } else {
        assert forall|i: int| 0 <= i < r.len() implies #[trigger] r[i] == p || ps.contains(
            r[i],
        ) by {
            if i < ps.len() {
                assert(ps[i] == r[i]);
            }
        }
        assert forall|i: int, j: int| 0 <= i < j < r.len() implies prefetch::distance(
            (#[trigger] r[i]).index as int,
            priority as int,
        ) <= prefetch::distance((#[trigger] r[j]).index as int, priority as int) by {
            assert(r[i] == ps[i]);
            if j < ps.len() {
                assert(r[j] == ps[j]);
            } else if i < ps.len() - 1 {
                assert(prefetch::distance(ps[i].index as int, priority as int) <= prefetch::distance(
                    ps[ps.len() - 1].index as int,
                    priority as int,
                ));
            }
        }
    }
}

/// Sorting uploads loses none and puts the nearest first. So the image on screen, when it is
/// among them, is uploaded before any other.
pub proof fn law_image_on_screen_comes_first(ps: Seq<Pending>, priority: usize)
    ensures
        nearest_first(by_distance(ps, priority), priority),
        by_distance(ps, priority).to_multiset() == ps.to_multiset(),
        (exists|i: int| 0 <= i < ps.len() && (#[trigger] ps[i]).index == priority)
            ==> by_distance(ps, priority).len() > 0 && by_distance(ps, priority)[0].index
            == priority,
    decreases ps.len(),
{
    broadcast use vstd::seq_lib::group_to_multiset_ensures;

    if ps.len() > 0 {
        let init = ps.drop_last();
        law_image_on_screen_comes_first(init, priority);
        lemma_insert_nearest(by_distance(init, priority), ps.last(), priority);
        assert(ps == init.push(ps.last()));
        let r = by_distance(ps, priority);
        if exists|i: int| 0 <= i < ps.len() && (#[trigger] ps[i]).index == priority {
            let i = choose|i: int| 0 <= i < ps.len() && (#[trigger] ps[i]).index == priority;
            assert(ps.to_multiset().count(ps[i]) > 0) by {
                assert(ps.contains(ps[i]));
            }
            assert(r.contains(ps[i]));
            let k = choose|k: int| 0 <= k < r.len() && r[k] == ps[i];
            if k > 0 {
                assert(prefetch::distance(r[0].index as int, priority as int) <= prefetch::distance(
                    r[k].index as int,
                    priority as int,
                ));
            }
        }
    }
}

/// The texture of the row under the pointer stays, however far it is from the selection.
pub proof fn law_hovered_texture_stays<T>(
    m: Map<usize, T>,
    centre: usize,
    radius: usize,
    hovered: usize,
)
    requires
        m.contains_key(hovered),
    ensures
        ({
            let left = m.remove_keys(outside(m, centre, radius, Some(hovered)));
            left.contains_key(hovered) && left[hovered] == m[hovered]
        }),
{
}

/// The image on screen is exempt from the budget: its bands are written whatever the time, so
/// that it is finished in one go. And every frame makes some progress on what waits.
pub proof fn law_image_on_screen_is_never_put_off<T>(
    t: Textures<T>,
    priority: usize,
    wrote_any: bool,
    time_up: bool,
)
    requires
        t.pending.len() > 0,
    ensures
        t.pending[0].index == priority ==> !t.must_wait(priority, wrote_any, time_up),
        !t.must_wait(priority, false, time_up),
        !t.must_wait(priority, wrote_any, false),
{
}

proof fn lemma_given_up<T>(t: Textures<T>)
    requires
        t.wf(),
        t.pending.len() > 0,
    ensures
        t.given_up().wf(),
        forall|i: int|
            0 <= i < t.given_up().pending.len() ==> #[trigger] t.given_up().pending[i]
                == t.pending[i + 1],
{
    let d = t.given_up();
    assert forall|i: int, j: int| 0 <= i < j < d.pending.len() implies (#[trigger] d.pending[i]).index
        != (#[trigger] d.pending[j]).index by {
        assert(t.pending[i + 1].index != t.pending[j + 1].index);
    }
    assert forall|i: int| 0 <= i < d.pending.len() && d.entries.contains_key(
        (#[trigger] d.pending[i]).index,
    ) implies !d.entries[d.pending[i].index].complete by {
        assert(d.pending[i] == t.pending[i + 1]);
    }
}

proof fn lemma_written<T>(t: Textures<T>, rows: u32)
    requires
        t.wf(),
        t.pending.len() > 0,
        0 < rows <= t.pending[0].image.height - t.pending[0].row,
    ensures
        t.written(rows).wf(),
{
    let p = t.pending[0];
    let d = t.written(rows);
    if p.row + rows < p.image.height {
        assert forall|i: int| 0 <= i < d.pending.len() implies (#[trigger] d.pending[i]).row
            < d.pending[i].image.height && d.pending[i].index == t.pending[i].index by {}
        assert forall|i: int, j: int| 0 <= i < j < d.pending.len() implies (
        #[trigger] d.pending[i]).index != (#[trigger] d.pending[j]).index by {
            assert(t.pending[i].index != t.pending[j].index);
        }
    } else {
        lemma_given_up(t);
        assert(d.entries.dom() =~= t.entries.dom());
        assert forall|i: int| 0 <= i < d.pending.len() && d.entries.contains_key(
            (#[trigger] d.pending[i]).index,
        ) implies !d.entries[d.pending[i].index].complete by {
            assert(d.pending[i] == t.given_up().pending[i]);
            assert(t.pending[0].index != t.pending[i + 1].index);
        }
    }
}

/// How many rows are left to write.
pub open spec fn rows_left(ps: Seq<Pending>) -> int
    decreases ps.len(),
{
    if ps.len() == 0 {
        0
    } else {
        ps[0].image.height - ps[0].row + rows_left(ps.skip(1))
    }
}

proof fn lemma_rows_left<T>(t: Textures<T>)
    requires
        t.wf(),
    ensures
        rows_left(t.pending) >= t.pending.len(),
    decreases t.pending.len(),
{
    if t.pending.len() > 0 {
        lemma_given_up(t);
        assert(t.given_up().pending == t.pending.skip(1));
        lemma_rows_left(t.given_up());
    }
}

/// A frame's uploads come to an end, whatever the clock says: at the latest when no row is left.
pub proof fn law_pump_ends<T>(t: Textures<T>, priority: usize, wrote_any: bool, clock: Seq<bool>)
    requires
        t.wf(),
        clock.len() > rows_left(t.pending),
    ensures
        t.pumped(priority, wrote_any, clock) is Some,
    decreases clock.len(),
{
    lemma_rows_left(t);
    if t.pending.len() > 0 {
        lemma_given_up(t);
        assert(t.given_up().pending == t.pending.skip(1));
    }
    match t.next_step(priority, wrote_any, clock[0]) {
        Step::Stop => {},
        Step::Write(band) => {
            lemma_written(t, band.rows);
            let d = t.written(band.rows);
            let p = t.pending[0];
            if p.row + band.rows < p.image.height {
                assert(d.pending.skip(1) == t.pending.skip(1));
            }
            law_pump_ends(d, priority, true, clock.skip(1));
        },
        _ => {
            law_pump_ends(t.given_up(), priority, wrote_any, clock.skip(1));
        },
    }
}

/// A texture that is complete and has no upload stays so.
proof fn lemma_done_stays_done<T>(
    t: Textures<T>,
    priority: usize,
    wrote_any: bool,
    clock: Seq<bool>,
    index: usize,
)
    requires
        t.wf(),
        t.finished(index),
    ensures
        t.pumped(priority, wrote_any, clock) matches Some(d) ==> d.finished(index),
    decreases clock.len(),
{
    if clock.len() > 0 {
        if t.pending.len() > 0 {
            lemma_given_up(t);
        }
        match t.next_step(priority, wrote_any, clock[0]) {
            Step::Stop => {},
            Step::Write(band) => {
                lemma_written(t, band.rows);
                let d = t.written(band.rows);
                assert forall|i: int| 0 <= i < d.pending.len() implies (#[trigger] d.pending[i]).index
                    != index by {
                    if t.pending[0].row + band.rows < t.pending[0].image.height {
                        assert(d.pending[i].index == t.pending[i].index);
                    } else {
                        assert(d.pending[i] == t.given_up().pending[i]);
                    }
                }
                lemma_done_stays_done(d, priority, true, clock.skip(1), index);
            },
            _ => {
                assert forall|i: int| 0 <= i < t.given_up().pending.len() implies (
                #[trigger] t.given_up().pending[i]).index != index by {
                    assert(t.given_up().pending[i] == t.pending[i + 1]);
                }
                lemma_done_stays_done(t.given_up(), priority, wrote_any, clock.skip(1), index);
            },
        }
    }
}

impl<T> Textures<T> {
    /// Every row of the image is in its texture.
    pub open spec fn finished(self, index: usize) -> bool {
        &&& self.entries.contains_key(index)
        &&& self.entries[index].complete
        &&& forall|i: int| 0 <= i < self.pending.len() ==> (#[trigger] self.pending[i]).index != index
    }
}

proof fn lemma_first_is_finished<T>(
    t: Textures<T>,
    priority: usize,
    wrote_any: bool,
    clock: Seq<bool>,
)
    requires
        t.wf(),
        t.pending.len() > 0,
        t.pending[0].index == priority,
        t.entries.contains_key(priority),
        t.pending[0].image.width * t.pending[0].image.height * 4
            <= t.pending[0].image.rgba@.len(),
    ensures
        t.pumped(priority, wrote_any, clock) matches Some(d) ==> d.finished(priority),
    decreases clock.len(),
{
    if clock.len() > 0 {
        let p = t.pending[0];
        let (rows, start, end) = t.next_rows();
        assert(0 < rows <= p.image.height - p.row);
        assert(end <= p.image.width * p.image.height * 4) by (nonlinear_arith)
            requires
                end == p.row * (p.image.width * 4) + rows * (p.image.width * 4),
                p.row + rows <= p.image.height,
                p.image.width >= 0,
        ;
        lemma_written(t, rows as u32);
        let d = t.written(rows as u32);
        if p.row + rows < p.image.height {
            lemma_first_is_finished(d, priority, true, clock.skip(1));
        } else {
            lemma_given_up(t);
            assert forall|i: int| 0 <= i < d.pending.len() implies (#[trigger] d.pending[i]).index
                != priority by {
                assert(d.pending[i] == t.given_up().pending[i]);
                assert(t.pending[0].index != t.pending[i + 1].index);
            }
            lemma_done_stays_done(d, priority, true, clock.skip(1), priority);
        }
    }
}

proof fn lemma_wanted_stays<T>(ps: Seq<Pending>, entries: Map<usize, Entry<T>>, k: int)
    requires
        0 <= k < ps.len(),
        entries.contains_key(ps[k].index),
    ensures
        exists|i: int|
            0 <= i < still_wanted(ps, entries).len() && #[trigger] still_wanted(ps, entries)[i]
                == ps[k],
    decreases ps.len(),
{
    let w = still_wanted(ps, entries);
    let wi = still_wanted(ps.drop_last(), entries);
    if k < ps.len() - 1 {
        lemma_wanted_stays(ps.drop_last(), entries, k);
        let i = choose|i: int| 0 <= i < wi.len() && #[trigger] wi[i] == ps[k];
        assert(w[i] == wi[i]);
    } else {
        assert(w[wi.len() as int] == ps[k]);
    }
}

/// The image on screen is exempt from the budget: when a frame's uploads end, its texture is
/// complete, whatever the clock said on the way and whatever else was waiting. It need only have
/// as many pixels as its size says, and a texture to go to.
pub proof fn law_pump_finishes_the_image_on_screen<T>(
    t: Textures<T>,
    priority: usize,
    k: int,
    clock: Seq<bool>,
)
    requires
        t.wf(),
        0 <= k < t.pending.len(),
        t.pending[k].index == priority,
        t.entries.contains_key(priority),
        t.pending[k].image.width * t.pending[k].image.height * 4
            <= t.pending[k].image.rgba@.len(),
    ensures
        t.started(priority).pumped(priority, false, clock) matches Some(d) ==> d.finished(
            priority,
        ),
{
    let ps = t.pending;
    let s = t.started(priority);
    let w = still_wanted(ps, t.entries);
    lemma_sorted_wf(ps, t.entries, priority);
    lemma_wanted_stays(ps, t.entries, k);
    law_image_on_screen_comes_first(w, priority);
    let n = choose|n: int| 0 <= n < w.len() && #[trigger] w[n] == ps[k];
    assert(w[n].index == priority);
    assert(s.pending[0].index == priority);
    assert(ps.contains(s.pending[0]));
    let j = choose|j: int| 0 <= j < ps.len() && ps[j] == s.pending[0];
    assert(j == k) by {
        if j < k {
            assert(ps[j].index != ps[k].index);
        } else if k < j {
            assert(ps[k].index != ps[j].index);
        }
    }
    assert forall|i: int| 0 <= i < s.pending.len() && s.entries.contains_key(
        (#[trigger] s.pending[i]).index,
    ) implies !s.entries[s.pending[i].index].complete by {
        assert(ps.contains(s.pending[i]));
        let m = choose|m: int| 0 <= m < ps.len() && ps[m] == s.pending[i];
        assert(!t.entries[ps[m].index].complete);
    }
    assert(s.wf());
    lemma_first_is_finished(s, priority, false, clock);
}

/// The bands in which the rows of an image are written from `row` on: where each starts, and how
/// many rows it has.
pub open spec fn bands_from(width: u32, height: u32, row: u32) -> Seq<(int, int)>
    decreases height - row,
{
    if row >= height {
        Seq::empty()
    } else {
        let rows = band_rows(width, height, row);
        seq![(row as int, rows)] + bands_from(width, height, (row + rows) as u32)
    }
}

/// The bands of an image cover its rows one after the other, without gap or overlap: the first
/// starts at the first row that is left, each has at least one row, the next starts where it
/// ends, and the last ends with the image.
pub proof fn law_bands_tile_the_image(width: u32, height: u32, row: u32)
    requires
        row < height,
    ensures
        ({
            let bands = bands_from(width, height, row);
            &&& bands.len() > 0
            &&& bands[0].0 == row
            &&& bands.last().0 + bands.last().1 == height
            &&& forall|i: int| 0 <= i < bands.len() ==> (#[trigger] bands[i]).1 > 0
            &&& forall|i: int, j: int|
                0 <= i && j == i + 1 && j < bands.len() ==> (#[trigger] bands[j]).0 == (
                #[trigger] bands[i]).0 + bands[i].1
        }),
    decreases height - row,
{
    let rows = band_rows(width, height, row);
    let bands = bands_from(width, height, row);
    let next = (row + rows) as u32;
    let rest = bands_from(width, height, next);
    if next < height {
        law_bands_tile_the_image(width, height, next);
        assert(bands.last() == rest.last());
    } else {
        assert(rest.len() == 0);
        assert(bands.last() == bands[0]);
    }
    assert forall|i: int| 0 <= i < bands.len() implies (#[trigger] bands[i]).1 > 0 by {
        if i > 0 {
            assert(bands[i] == rest[i - 1]);
        }
    }
    assert forall|i: int, j: int| 0 <= i && j == i + 1 && j < bands.len() implies (
    #[trigger] bands[j]).0 == (#[trigger] bands[i]).0 + bands[i].1 by {
        assert(bands[j] == rest[i]);
        if i > 0 {
            assert(bands[i] == rest[i - 1]);
        }
    }
}

/// A texture goes when it is further than the radius from the centre, on either side, and is not
/// the one to keep; every other stays as it is.
pub proof fn law_far_textures_go<T>(
    m: Map<usize, T>,
    centre: usize,
    radius: usize,
    keep: Option<usize>,
    i: usize,
)
    requires
        m.contains_key(i),
    ensures
        ({
            let left = m.remove_keys(outside(m, centre, radius, keep));
            &&& keep == Some(i) ==> left.contains_key(i)
            &&& i >= centre && i - centre <= radius ==> left.contains_key(i)
            &&& i < centre && centre - i <= radius ==> left.contains_key(i)
            &&& keep != Some(i) && i >= centre && i - centre > radius ==> !left.contains_key(i)
            &&& keep != Some(i) && i < centre && centre - i > radius ==> !left.contains_key(i)
            &&& left.contains_key(i) ==> left[i] == m[i]
        }),
{
}

/// A new texture always gets its place. Where it takes that of an earlier one for the same image,
/// or there is room, nothing else goes; where there is none, one goes that is furthest from it.
pub proof fn law_furthest_texture_makes_room<T>(
    from: Map<usize, Entry<T>>,
    capacity: usize,
    index: usize,
    e: Entry<T>,
    to: Map<usize, Entry<T>>,
    gone: Seq<Entry<T>>,
    i: usize,
)
    requires
        inserted(from, capacity, index, e, to, gone),
    ensures
        to.contains_key(index) && to[index] == e,
        from.contains_key(index) ==> gone.len() == 1 && gone[0] == from[index],
        !from.contains_key(index) && from.len() < capacity ==> gone.len() == 0,
        from.contains_key(index) || from.len() < capacity ==> (i != index ==> (to.contains_key(i)
            <==> from.contains_key(i))),
        !from.contains_key(index) && from.len() >= capacity ==> exists|victim: usize|
            {
                &&& #[trigger] from.contains_key(victim)
                &&& !to.contains_key(victim)
                &&& gone.len() == 1 && gone[0] == from[victim]
                &&& i != index && i != victim ==> (to.contains_key(i) <==> from.contains_key(i))
                &&& from.contains_key(i) ==> {
                    let di = if i < index {
                        index - i
                    } else {
                        i - index
                    };
                    let dv = if victim < index {
                        index - victim
                    } else {
                        victim - index
                    };
                    di <= dv
                }
            },
        i != index && to.contains_key(i) ==> from.contains_key(i) && to[i] == from[i],
{
    if !from.contains_key(index) && from.len() >= capacity {
        let victim = choose|victim: usize| #[trigger]
            is_victim(from.insert(index, e), index, victim) && to == from.insert(index, e).remove(
                victim,
            ) && gone == seq![from[victim]];
        assert(from.insert(index, e).contains_key(victim));
        assert(from.contains_key(victim));
        if from.contains_key(i) {
            assert(from.insert(index, e).contains_key(i));
        }
    }
}

/// The next band is the next rows of the nearest upload, where they lie in its pixels: as many as
/// fit into four mebibytes, one at least, and never more than there are. Uploading stops for the
/// frame when nothing waits, or when the time is up, something has been written, and the nearest
/// is not the image on screen.
pub proof fn law_band_is_the_next_rows<T>(
    t: Textures<T>,
    priority: usize,
    wrote_any: bool,
    time_up: bool,
)
    requires
        t.wf(),
    ensures
        t.pending.len() == 0 ==> t.next_step(priority, wrote_any, time_up) is Stop,
        t.pending.len() > 0 ==> {
            let p = t.pending[0];
            let step = t.next_step(priority, wrote_any, time_up);
            let row_bytes = p.image.width * 4;
            &&& step is Stop <==> p.index != priority && wrote_any && time_up
            &&& step matches Step::Write(band) ==> {
                &&& t.entries.contains_key(p.index)
                &&& band.index == p.index
                &&& band.width == p.image.width
                &&& band.row == p.row
                &&& 1 <= band.rows <= p.image.height - p.row
                &&& band.start == p.row * row_bytes
                &&& band.end == (p.row + band.rows) * row_bytes
                &&& band.end <= p.image.rgba@.len()
                &&& band.rows > 1 ==> band.rows * row_bytes <= 0x40_0000
                &&& band.rows < p.image.height - p.row && p.image.width > 0 ==> (band.rows + 1)
                    * row_bytes > 0x40_0000
            }
            &&& step matches Step::TooShort(index, buf) ==> index == p.index && buf == p.image.rgba
            &&& step matches Step::Gone(index, buf) ==> index == p.index && buf == p.image.rgba
                && !t.entries.contains_key(p.index)
            &&& !(step is Stop) && p.image.rgba@.len() >= p.image.height * row_bytes
                && t.entries.contains_key(p.index) && p.image.rgba@.len() <= usize::MAX
                ==> step is Write
        },
{
    if t.pending.len() > 0 {
        let p = t.pending[0];
        let row_bytes = p.image.width * 4;
        let (rows, start, end) = t.next_rows();
        let left = p.image.height - p.row;
        assert(0 < rows <= left);
        assert(end == (p.row + rows) * row_bytes) by (nonlinear_arith)
            requires
                end == p.row * row_bytes + rows * row_bytes,
        ;
        assert(end <= p.image.height * row_bytes) by (nonlinear_arith)
            requires
                end == (p.row + rows) * row_bytes,
                p.row + rows <= p.image.height,
                row_bytes >= 0,
        ;
        assert(0 <= start <= end) by (nonlinear_arith)
            requires
                start == p.row * row_bytes,
                end == p.row * row_bytes + rows * row_bytes,
                rows > 0,
                row_bytes >= 0,
                p.row >= 0,
        ;
        let fit = 0x40_0000int / at_least_one(row_bytes);
        lemma_fit(row_bytes, fit, rows);
        assert(p.image.rgba@.len() <= usize::MAX) by {
            assert(p.image.rgba@.len() == p.image.rgba.len());
        }
    }
}

proof fn lemma_fit(row_bytes: int, fit: int, rows: int)
    requires
        row_bytes >= 0,
        row_bytes == 0 || row_bytes >= 4,
        fit == 0x40_0000int / at_least_one(row_bytes),
    ensures
        1 < rows <= fit ==> rows * row_bytes <= 0x40_0000,
        row_bytes > 0 && rows >= 1 && rows >= fit ==> (rows + 1) * row_bytes > 0x40_0000,
        row_bytes == 0 ==> fit == 0x40_0000,
{
    if row_bytes > 0 {
        assert(fit * row_bytes <= 0x40_0000 < (fit + 1) * row_bytes) by (nonlinear_arith)
            requires
                row_bytes > 0,
                fit == 0x40_0000int / row_bytes,
        ;
        if 1 < rows <= fit {
            assert(rows * row_bytes <= fit * row_bytes) by (nonlinear_arith)
                requires
                    rows <= fit,
                    row_bytes > 0,
            ;
        }
        if rows >= fit {
            assert((rows + 1) * row_bytes >= (fit + 1) * row_bytes) by (nonlinear_arith)
                requires
                    rows >= fit,
                    row_bytes > 0,
            ;
        }
    } else {
        assert(at_least_one(0) == 1);
    }
}

/// Rows that are written move their upload on by as many, and touch nothing else. With the last of
/// them the upload is over, and its texture, and no other, may be drawn.
pub proof fn law_last_row_completes_the_texture<T>(t: Textures<T>, rows: u32, i: usize)
    requires
        t.pending.len() > 0,
        rows <= t.pending[0].image.height - t.pending[0].row,
    ensures
        ({
            let p = t.pending[0];
            let s = t.written(rows);
            &&& s.pool == t.pool && s.capacity == t.capacity
            &&& p.row + rows < p.image.height ==> {
                &&& s.entries == t.entries
                &&& s.pending.len() == t.pending.len()
                &&& s.pending[0].row == p.row + rows
                &&& s.pending[0].index == p.index && s.pending[0].image == p.image
                &&& forall|k: int|
                    0 < k < t.pending.len() ==> #[trigger] s.pending[k] == t.pending[k]
            }
            &&& p.row + rows == p.image.height ==> {
                &&& s.pending == t.pending.skip(1)
                &&& s.entries.contains_key(i) <==> t.entries.contains_key(i)
                &&& i != p.index && t.entries.contains_key(i) ==> s.entries[i] == t.entries[i]
                &&& i == p.index && t.entries.contains_key(i) ==> {
                    &&& s.entries[i].complete
                    &&& s.entries[i].texture == t.entries[i].texture
                    &&& s.entries[i].stored == t.entries[i].stored
                    &&& s.entries[i].orientation == t.entries[i].orientation
                    &&& s.entries[i].colour == t.entries[i].colour
                }
            }
        }),
{
    assert(t.pending.remove(0) == t.pending.skip(1));
}

/// A texture that goes is kept for reuse with its size, unless four are kept already; several go
/// one after the other.
pub proof fn law_four_textures_are_kept_for_reuse<T>(
    pool: Seq<Spare<T>>,
    e: Entry<T>,
    a: Seq<Entry<T>>,
)
    ensures
        recycled(pool, Seq::empty()) == pool,
        recycled(pool, a.push(e)) == (if recycled(pool, a).len() < 4 {
            recycled(pool, a).push(Spare { texture: e.texture, size: e.stored })
        } else {
            recycled(pool, a)
        }),
{
    assert(a.push(e).drop_last() == a);
}

proof fn lemma_wanted_only<T>(ps: Seq<Pending>, entries: Map<usize, Entry<T>>, i: int)
    requires
        0 <= i < still_wanted(ps, entries).len(),
    ensures
        ps.contains(still_wanted(ps, entries)[i]),
        entries.contains_key(still_wanted(ps, entries)[i].index),
    decreases ps.len(),
{
    if ps.len() > 0 {
        let init = ps.drop_last();
        let wi = still_wanted(init, entries);
        if i < wi.len() {
            lemma_wanted_only(init, entries, i);
            assert(still_wanted(ps, entries)[i] == wi[i]);
            let n = choose|n: int| 0 <= n < init.len() && init[n] == wi[i];
            assert(ps[n] == wi[i]);
        } else {
            assert(ps[ps.len() - 1] == still_wanted(ps, entries)[i]);
        }
    }
}

/// A frame begins with the uploads whose texture is still there, and those only; the nearest to
/// the image on screen comes first.
pub proof fn law_frame_begins_with_what_is_wanted<T>(t: Textures<T>, priority: usize, k: int, i: int, j: int)
    ensures
        ({
            let s = t.started(priority);
            &&& s.entries == t.entries && s.pool == t.pool && s.capacity == t.capacity
            &&& 0 <= k < t.pending.len() && t.entries.contains_key(t.pending[k].index)
                ==> s.pending.contains(t.pending[k])
            &&& 0 <= i < s.pending.len() ==> t.pending.contains(s.pending[i])
                && t.entries.contains_key(s.pending[i].index)
            &&& 0 <= i < j < s.pending.len() ==> {
                let di = if s.pending[i].index < priority {
                    priority - s.pending[i].index
                } else {
                    s.pending[i].index - priority
                };
                let dj = if s.pending[j].index < priority {
                    priority - s.pending[j].index
                } else {
                    s.pending[j].index - priority
                };
                di <= dj
            }
        }),
{
    broadcast use vstd::seq_lib::group_to_multiset_ensures;

    let w = still_wanted(t.pending, t.entries);
    let s = t.started(priority);
    law_image_on_screen_comes_first(w, priority);
    if 0 <= k < t.pending.len() && t.entries.contains_key(t.pending[k].index) {
        lemma_wanted_stays(t.pending, t.entries, k);
        let n = choose|n: int| 0 <= n < w.len() && #[trigger] w[n] == t.pending[k];
        assert(w.contains(w[n]));
        assert(w.to_multiset().count(t.pending[k]) > 0);
        assert(s.pending.to_multiset().count(t.pending[k]) > 0);
    }
    if 0 <= i < s.pending.len() {
        assert(s.pending.contains(s.pending[i]));
        assert(s.pending.to_multiset().count(s.pending[i]) > 0);
        assert(w.to_multiset().count(s.pending[i]) > 0);
        assert(w.contains(s.pending[i]));
        let n = choose|n: int| 0 <= n < w.len() && w[n] == s.pending[i];
        lemma_wanted_only(t.pending, t.entries, n);
    }
    if 0 <= i < j < s.pending.len() {
        assert(prefetch::distance(s.pending[i].index as int, priority as int)
            <= prefetch::distance(s.pending[j].index as int, priority as int));
    }
}

/// An earlier upload for the same image is dropped for a new one; the others stay, in order.
pub proof fn law_only_one_upload_per_image(ps: Seq<Pending>, index: usize, k: int)
    requires
        0 <= k <= ps.len(),
        k < ps.len() ==> ps[k].index == index,
        forall|i: int| 0 <= i < k ==> (#[trigger] ps[i]).index != index,
    ensures
        k == ps.len() ==> without(ps, index) == ps && pending_at(ps, index) < 0,
        k < ps.len() ==> without(ps, index) == ps.take(k) + ps.skip(k + 1) && pending_at(ps, index)
            == k,
{
    lemma_pending_at(ps, index);
    let at = pending_at(ps, index);
    if k < ps.len() {
        assert(at >= 0) by {
            if at < 0 {
                assert(ps[k].index != index);
            }
        }
        if at < k {
            assert(ps[at].index != index);
        } else if at > k {
            assert(ps[k].index != index);
        }
        assert(ps.remove(k) == ps.take(k) + ps.skip(k + 1));
    }
}

/// A texture carries the size and the orientation of its image and the verdict on its colours, and
/// is not drawn before its rows are there. An orientation that does not exist counts as upright.
pub proof fn law_texture_carries_what_the_image_says<T>(image: Image, texture: T, e: Entry<T>)
    requires
        entry_of(image, texture, e),
    ensures
        e.texture == texture,
        e.stored.0 == image.width && e.stored.1 == image.height,
        1 <= image.orientation <= 8 ==> e.orientation.spec_value() == image.orientation,
        image.orientation == 0 || image.orientation > 8 ==> e.orientation.spec_value() == 1,
        image.icc matches Some(p) ==> e.colour == icc::spec_classify(Some(p@), image.color_space),
        image.icc is None ==> e.colour == icc::spec_classify(None, image.color_space),
        !e.complete,
{
}

} // verus!

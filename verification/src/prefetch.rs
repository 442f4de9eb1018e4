//! Prefetch ring: keeps a window of decoded images warm around the cursor.
//!
//! This is what makes navigation instant. Switching to an index already in the window
//! costs a texture bind; the decode happened while the user was looking at a previous
//! image.
//!
//! Deliberately simple: there is no need for directional bias or priority classes. What
//! the ring *does* need is correct cancellation and hard memory bounds.
//!
//! ## Cancellation
//!
//! A JPEG decode cannot be interrupted partway through, so "cancel" means two things:
//! never *start* a job whose index has left the window, and *discard* a finished image
//! whose index has left the window, unless it is hinted or was required. Both are decided here, by [`Prefetcher::claim`] and
//! [`Prefetcher::publish`], so a fast-moving cursor cannot waste a worker on stale work for
//! more than one decode.
//!
//! ## Memory
//!
//! Pixels live in the ring only until the renderer collects them via
//! [`Prefetcher::take_ready`], after which the slot holds no data. The worst case is bounded
//! by in-flight decodes plus uncollected results, not by the window size.
use std::collections::HashMap;
use vstd::prelude::*;
use crate::decode::Image;
use crate::scan;
use crate::table;

verus! {

broadcast use vstd::std_specs::hash::group_hash_axioms;

/// Produces pixels for a path. Abstracted so the ring can be tested without touching
/// the filesystem or spending time on decoding.
pub trait Loader {
    fn load(&self, path: &str) -> Result<Image, String>;
}

/// Observable state of a slot.
#[derive(Clone, Copy, PartialEq, Eq, Debug, Structural)]
pub enum State {
    /// Not in the window, or evicted.
    Absent,
    /// In the window, waiting for a worker.
    Queued,
    /// A worker is decoding it now.
    Decoding,
    /// Decoded and waiting for the renderer to collect it.
    Ready,
    /// Collected by the renderer; the ring no longer holds pixels.
    Collected,
    /// Load or decode failed. Remembered so it is not retried in a loop.
    Failed,
}

/// One index of the ring.
pub enum Slot {
    Queued,
    Decoding,
    Ready(Box<Image>),
    Collected,
    Failed(String),
}

impl Slot {
    pub open spec fn spec_state(self) -> State {
        match self {
            Slot::Queued => State::Queued,
            Slot::Decoding => State::Decoding,
            Slot::Ready(_) => State::Ready,
            Slot::Collected => State::Collected,
            Slot::Failed(_) => State::Failed,
        }
    }

    fn state(&self) -> (s: State)
        ensures
            s == self.spec_state(),
    {
        match self {
            Slot::Queued => State::Queued,
            Slot::Decoding => State::Decoding,
            Slot::Ready(_) => State::Ready,
            Slot::Collected => State::Collected,
            Slot::Failed(_) => State::Failed,
        }
    }
}

/// A queued decode.
#[derive(Clone, Copy, PartialEq, Eq, Debug, Structural)]
pub struct Job {
    /// Distance from the window centre at enqueue time.
    pub distance: usize,
    pub index: usize,
}

impl Job {
    /// `self` is to be decoded before `other`: nearest to the cursor first.
    pub open spec fn nearer(self, other: Job) -> bool {
        self.distance < other.distance || (self.distance == other.distance && self.index
            < other.index)
    }

    fn is_nearer(self, other: Job) -> (r: bool)
        ensures
            r == self.nearer(other),
    {
        self.distance < other.distance || (self.distance == other.distance && self.index
            < other.index)
    }
}

/// Counters for tests and diagnostics.
#[derive(Clone, Copy, Debug, PartialEq, Eq, Structural)]
pub struct Stats {
    pub decoded: usize,
    /// Finished decodes thrown away because the window had moved on.
    pub discarded: usize,
    /// Jobs skipped at dequeue because the window had already moved on.
    pub skipped: usize,
    pub failed: usize,
}

impl Default for Stats {
    fn default() -> (s: Self)
        ensures
            s == (Stats { decoded: 0, discarded: 0, skipped: 0, failed: 0 }),
    {
        Stats { decoded: 0, discarded: 0, skipped: 0, failed: 0 }
    }
}

/// `n` counted up by one, as far as it can be.
pub open spec fn bumped(n: usize) -> usize {
    if n < usize::MAX {
        (n + 1) as usize
    } else {
        n
    }
}

fn bump(n: usize) -> (r: usize)
    ensures
        r == bumped(n),
{
    if n < usize::MAX {
        n + 1
    } else {
        n
    }
}

/// A job that a worker has taken on.
pub struct Claim {
    pub index: usize,
    pub path: String,
    /// Which list of paths the index belongs to.
    pub epoch: u64,
}

/// The ring.
pub struct Prefetcher {
    paths: Vec<String>,
    slots: HashMap<usize, Slot>,
    queue: Vec<Job>,
    centre: usize,
    radius: usize,
    /// One extra index kept warm outside the window, set when the user hovers a row in
    /// the sidebar. They are likely to click it, so decoding early makes the click
    /// instant. Bounded to a single slot so it cannot grow memory.
    hint: Option<usize>,
    /// Indices outside the window that were required and have not been decoded since. Each is
    /// decoded wherever the window is by then.
    needed: Vec<usize>,
    stats: Stats,
    /// Counts the lists of paths, so that a decode begun under an earlier one is recognised.
    epoch: u64,
}

/// The mathematical content of a [`Prefetcher`].
#[verifier::ext_equal]
pub struct Ring {
    pub paths: Seq<Seq<char>>,
    pub slots: Map<usize, Slot>,
    pub queue: Seq<Job>,
    pub centre: usize,
    pub radius: usize,
    pub hint: Option<usize>,
    pub needed: Seq<usize>,
    pub stats: Stats,
    pub epoch: u64,
}

impl View for Prefetcher {
    type V = Ring;

    closed spec fn view(&self) -> Ring {
        Ring {
            paths: scan::strings(self.paths@),
            slots: self.slots@,
            queue: self.queue@,
            centre: self.centre,
            radius: self.radius,
            hint: self.hint,
            needed: self.needed@,
            stats: self.stats,
            epoch: self.epoch,
        }
    }
}

/// The distance between two indices.
pub open spec fn distance(a: int, b: int) -> int {
    if a < b {
        b - a
    } else {
        a - b
    }
}

/// A job for each index in `lo..n` whose slot is queued.
pub open spec fn jobs(slots: Map<usize, Slot>, lo: int, n: int, centre: usize) -> Seq<Job>
    decreases n - lo,
{
    if n <= lo {
        Seq::empty()
    } else {
        let init = jobs(slots, lo, n - 1, centre);
        if slots[(n - 1) as usize] is Queued {
            init.push(
                Job {
                    distance: distance(n - 1, centre as int) as usize,
                    index: (n - 1) as usize,
                },
            )
        } else {
            init
        }
    }
}

/// What is waiting at `index`, which may have no slot.
pub open spec fn is_queued(slots: Map<usize, Slot>, index: usize) -> bool {
    slots.contains_key(index) && slots[index] is Queued
}

/// A job at distance 0 for each of `needed` that is queued outside the window `lo..=hi`.
pub open spec fn needed_jobs(slots: Map<usize, Slot>, lo: int, hi: int, needed: Seq<usize>) -> Seq<
    Job,
>
    decreases needed.len(),
{
    if needed.len() == 0 {
        Seq::empty()
    } else {
        let init = needed_jobs(slots, lo, hi, needed.drop_last());
        let i = needed.last();
        if !(lo <= i <= hi) && is_queued(slots, i) {
            init.push(Job { distance: 0, index: i })
        } else {
            init
        }
    }
}

/// What is wanted outside the window: the hint, and whatever was required.
pub open spec fn exempted(hint: Option<usize>, needed: Seq<usize>) -> Seq<usize> {
    match hint {
        Some(h) => needed.push(h),
        None => needed,
    }
}

/// A slot that stays when the window leaves it: one that is being decoded right now, which
/// keeps two workers from decoding the same index, the hint, and what was required and is
/// still waiting.
pub open spec fn stays(slot: Slot, index: usize, hint: Option<usize>, needed: Seq<usize>) -> bool {
    slot is Decoding || hint == Some(index) || (slot is Queued && needed.contains(index))
}

/// The slots once the window is `lo..=hi`. What lies outside goes, so that a long session
/// cannot accumulate entries without bound, unless it stays for its own sake. What the window
/// newly covers is queued.
pub open spec fn windowed(
    slots: Map<usize, Slot>,
    lo: int,
    hi: int,
    hint: Option<usize>,
    needed: Seq<usize>,
) -> Map<usize, Slot> {
    Map::new(
        |i: usize|
            lo <= i <= hi || (slots.contains_key(i) && stays(slots[i], i, hint, needed)),
        |i: usize|
            if slots.contains_key(i) {
                slots[i]
            } else {
                Slot::Queued
            },
    )
}

/// `s` without `index`.
pub open spec fn without(s: Seq<usize>, index: usize) -> Seq<usize>
    decreases s.len(),
{
    if s.len() == 0 {
        Seq::empty()
    } else if s.last() == index {
        without(s.drop_last(), index)
    } else {
        without(s.drop_last(), index).push(s.last())
    }
}

/// The position of the job to take first.
pub open spec fn nearest(q: Seq<Job>) -> int
    decreases q.len(),
{
    if q.len() <= 1 {
        0
    } else {
        let k = nearest(q.drop_last());
        if q.last().nearer(q[k]) {
            q.len() - 1
        } else {
            k
        }
    }
}

impl Ring {
    /// Inclusive window bounds, or `None` when there is nothing to show. The centre is clamped:
    /// after a rescan shrinks the list it may be stale.
    pub open spec fn window(self) -> Option<(int, int)> {
        if self.paths.len() == 0 {
            None
        } else {
            let last = self.paths.len() - 1;
            let c = if self.centre < last {
                self.centre as int
            } else {
                last
            };
            Some(
                (
                    if c > self.radius {
                        c - self.radius
                    } else {
                        0
                    },
                    if c + self.radius < last {
                        c + self.radius
                    } else {
                        last
                    },
                ),
            )
        }
    }

    pub open spec fn in_window(self, index: usize) -> bool {
        match self.window() {
            Some((lo, hi)) => lo <= index <= hi,
            None => false,
        }
    }

    /// Wanted means "inside the window, or the current hover hint, or required".
    pub open spec fn wanted(self, index: usize) -> bool {
        self.in_window(index) || (index < self.paths.len() && (self.hint == Some(index)
            || self.needed.contains(index)))
    }

    /// The state of an index.
    pub open spec fn state(self, index: usize) -> State {
        if self.slots.contains_key(index) {
            self.slots[index].spec_state()
        } else {
            State::Absent
        }
    }

    /// The ring with its window around `centre`.
    pub open spec fn recentred(self, centre: usize) -> Ring {
        let r = Ring { centre, ..self };
        match r.window() {
            None => Ring {
                slots: Map::empty(),
                queue: Seq::empty(),
                needed: Seq::empty(),
                ..r
            },
            Some((lo, hi)) => {
                let slots = windowed(self.slots, lo, hi, self.hint, self.needed);
                Ring {
                    slots,
                    queue: jobs(slots, lo, hi + 1, centre) + needed_jobs(
                        slots,
                        lo,
                        hi,
                        exempted(self.hint, self.needed),
                    ),
                    ..r
                }
            },
        }
    }

    /// The slots without the old hint's, unless the window wants it, or it was required or is
    /// being decoded.
    pub open spec fn unhinted_slots(self) -> Map<usize, Slot> {
        match self.hint {
            Some(old) => if !self.in_window(old) && self.state(old) != State::Decoding
                && !self.needed.contains(old) {
                self.slots.remove(old)
            } else {
                self.slots
            },
            None => self.slots,
        }
    }

    /// The ring with `index` as the hint. It is queued unless it is known already; a slot that
    /// waits but is no longer wanted has lost its job, and is queued again.
    pub open spec fn hinted(self, index: usize) -> Ring {
        if self.hint == Some(index) || index >= self.paths.len() {
            self
        } else {
            let r = Ring { slots: self.unhinted_slots(), hint: Some(index), ..self };
            if r.slots.contains_key(index) && (self.wanted(index) || r.state(index)
                != State::Queued) {
                r
            } else {
                r.queued_first(index)
            }
        }
    }

    /// The ring with `index` queued ahead of the rest of the window.
    pub open spec fn queued_first(self, index: usize) -> Ring {
        Ring {
            slots: self.slots.insert(index, Slot::Queued),
            queue: self.queue.push(Job { distance: 0, index }),
            ..self
        }
    }

    /// The ring once `index` will be decoded again, unless it is out of range, or its pixels
    /// are there. Outside the window it is remembered as needed, so that it is handed out and
    /// kept although the window does not want it.
    pub open spec fn required(self, index: usize) -> Ring {
        if index >= self.paths.len() || self.state(index) == State::Ready {
            self
        } else {
            let r = Ring {
                needed: if self.in_window(index) || self.needed.contains(index) {
                    self.needed
                } else {
                    self.needed.push(index)
                },
                ..self
            };
            if self.state(index) == State::Decoding || (self.state(index) == State::Queued
                && self.wanted(index)) {
                r
            } else {
                r.queued_first(index)
            }
        }
    }

    /// The ring over another list of paths. Every slot is dropped.
    pub open spec fn renewed(self, paths: Seq<Seq<char>>, centre: usize) -> Ring {
        Ring {
            paths,
            slots: Map::empty(),
            queue: Seq::empty(),
            needed: Seq::empty(),
            epoch: next_epoch(self.epoch),
            ..self
        }.recentred(centre)
    }

    /// The slots once everything decoded has been collected.
    pub open spec fn collected_slots(self) -> Map<usize, Slot> {
        Map::new(
            |i: usize| self.slots.contains_key(i),
            |i: usize|
                if self.slots[i] is Ready {
                    Slot::Collected
                } else {
                    self.slots[i]
                },
        )
    }

    /// What taking the next job makes of the ring, and its index. Jobs that the window has left
    /// behind are skipped; those already taken or done are dropped.
    pub open spec fn claimed(self) -> (Ring, Option<usize>)
        decreases self.queue.len(),
    {
        if self.queue.len() == 0 {
            (self, None)
        } else {
            proof {
                lemma_nearest(self.queue);
            }
            let k = nearest(self.queue);
            let index = self.queue[k].index;
            let rest = Ring { queue: self.queue.remove(k), ..self };
            if !self.wanted(index) {
                Ring {
                    stats: Stats { skipped: bumped(self.stats.skipped), ..self.stats },
                    ..rest
                }.claimed()
            } else if self.state(index) != State::Queued {
                rest.claimed()
            } else {
                (Ring { slots: self.slots.insert(index, Slot::Decoding), ..rest }, Some(index))
            }
        }
    }

    /// The slot still holds the marker of the decode that was begun in `epoch`.
    pub open spec fn owns(self, index: usize, epoch: u64) -> bool {
        epoch == self.epoch && self.state(index) == State::Decoding
    }

    /// The ring once a decode has finished. The result is dropped when another list of paths
    /// has taken over, or when the window has moved on.
    pub open spec fn published(
        self,
        index: usize,
        epoch: u64,
        result: Result<Image, String>,
    ) -> Ring {
        let owns = self.owns(index, epoch);
        if owns && self.wanted(index) {
            match result {
                Ok(image) => Ring {
                    slots: self.slots.insert(index, Slot::Ready(Box::new(image))),
                    needed: without(self.needed, index),
                    stats: Stats { decoded: bumped(self.stats.decoded), ..self.stats },
                    ..self
                },
                Err(m) => Ring {
                    slots: self.slots.insert(index, Slot::Failed(m)),
                    needed: without(self.needed, index),
                    stats: Stats { failed: bumped(self.stats.failed), ..self.stats },
                    ..self
                },
            }
        } else {
            Ring {
                slots: if owns {
                    self.slots.remove(index)
                } else {
                    self.slots
                },
                stats: Stats {
                    discarded: bumped(self.stats.discarded),
                    failed: if result is Err {
                        bumped(self.stats.failed)
                    } else {
                        self.stats.failed
                    },
                    ..self.stats
                },
                ..self
            }
        }
    }

    /// The ring with an image put back that was collected but not uploaded. Ignored if the slot
    /// has since left the window, because the image is then no longer wanted.
    pub open spec fn returned(self, index: usize, image: Box<Image>) -> Ring {
        if self.wanted(index) && self.state(index) == State::Collected {
            Ring { slots: self.slots.insert(index, Slot::Ready(image)), ..self }
        } else {
            self
        }
    }
}

/// The count of lists after `epoch`.
pub open spec fn next_epoch(epoch: u64) -> u64 {
    if epoch < u64::MAX {
        (epoch + 1) as u64
    } else {
        0
    }
}

/// The nearest job is one of the queue, and none is nearer.
pub proof fn lemma_nearest(q: Seq<Job>)
    requires
        q.len() > 0,
    ensures
        0 <= nearest(q) < q.len(),
        forall|i: int| 0 <= i < q.len() ==> !(#[trigger] q[i]).nearer(q[nearest(q)]),
    decreases q.len(),
{
    if q.len() > 1 {
        let init = q.drop_last();
        lemma_nearest(init);
        assert forall|i: int| 0 <= i < q.len() implies !(#[trigger] q[i]).nearer(
            q[nearest(q)],
        ) by {
            if i < init.len() {
                assert(init[i] == q[i]);
            }
        }
    }
}

impl Prefetcher {
    /// A ring over `paths` with the given window radius. Nothing is queued until
    /// [`Prefetcher::set_centre`] is called.
    pub fn new(paths: Vec<String>, radius: usize) -> (p: Self)
        ensures
            p@ == (Ring {
                paths: scan::strings(paths@),
                slots: Map::empty(),
                queue: Seq::empty(),
                centre: 0,
                radius,
                hint: None,
                needed: Seq::empty(),
                stats: Stats { decoded: 0, discarded: 0, skipped: 0, failed: 0 },
                epoch: 0,
            }),
    {
        Prefetcher {
            paths,
            slots: HashMap::new(),
            queue: Vec::new(),
            centre: 0,
            radius,
            hint: None,
            needed: Vec::new(),
            stats: Stats { decoded: 0, discarded: 0, skipped: 0, failed: 0 },
            epoch: 0,
        }
    }

    /// Inclusive window bounds, or `None` when there is nothing to show.
    ///
    /// Returns an `Option` rather than a clamped pair on purpose: for an empty
    /// collection any numeric answer is wrong.
    pub fn window(&self) -> (r: Option<(usize, usize)>)
        ensures
            match r {
                Some((lo, hi)) => self@.window() == Some((lo as int, hi as int)) && lo <= hi
                    < self@.paths.len() && hi < usize::MAX,
                None => self@.window() is None,
            },
    {
        if self.paths.len() == 0 {
            return None;
        }
        let last: usize = self.paths.len() - 1;
        let c: usize = if self.centre < last {
            self.centre
        } else {
            last
        };
        let lo: usize = if c > self.radius {
            c - self.radius
        } else {
            0
        };
        let hi: usize = if self.radius < last - c {
            c + self.radius
        } else {
            last
        };
        Some((lo, hi))
    }

    pub fn in_window(&self, index: usize) -> (r: bool)
        ensures
            r == self@.in_window(index),
    {
        match self.window() {
            Some((lo, hi)) => lo <= index && index <= hi,
            None => false,
        }
    }

    /// Wanted means "inside the window, or the current hover hint, or required".
    pub fn wanted(&self, index: usize) -> (r: bool)
        ensures
            r == self@.wanted(index),
            r ==> index < self@.paths.len(),
    {
        self.in_window(index) || (index < self.paths.len() && (self.is_hint(index)
            || self.is_needed(index)))
    }

    fn is_needed(&self, index: usize) -> (r: bool)
        ensures
            r == self@.needed.contains(index),
    {
        for k in 0..self.needed.len()
            invariant
                forall|n: int| 0 <= n < k ==> self.needed@[n] != index,
        {
            if self.needed[k] == index {
                return true;
            }
        }
        false
    }

    /// `index` was decoded, so it is no longer needed for having been required.
    fn meet(&mut self, index: usize)
        ensures
            final(self)@ == (Ring { needed: without(old(self)@.needed, index), ..old(self)@ }),
    {
        let ghost before = self@;
        let mut rest: Vec<usize> = Vec::new();
        assert(before.needed.take(0) == Seq::<usize>::empty());
        for k in 0..self.needed.len()
            invariant
                self@ == before,
                rest@ == without(before.needed.take(k as int), index),
        {
            assert(before.needed.take(k + 1).drop_last() == before.needed.take(k as int));
            if self.needed[k] != index {
                rest.push(self.needed[k]);
            }
        }
        assert(before.needed.take(before.needed.len() as int) == before.needed);
        self.needed = rest;
    }

    fn is_hint(&self, index: usize) -> (r: bool)
        ensures
            r == (self@.hint == Some(index)),
    {
        match self.hint {
            Some(h) => h == index,
            None => false,
        }
    }

    pub fn state(&self, index: usize) -> (s: State)
        ensures
            s == self@.state(index),
    {
        match self.slots.get(&index) {
            Some(slot) => slot.state(),
            None => State::Absent,
        }
    }

    /// Change the window radius, re-centring on `centre`.
    ///
    /// Used to shrink the window while the user holds a navigation key: decoding the full
    /// window for every intermediate image is work that is thrown away before it can be
    /// seen, and it saturates the CPU that the UI needs.
    pub fn set_radius(&mut self, radius: usize, centre: usize)
        ensures
            final(self)@ == (Ring { radius, ..old(self)@ }).recentred(centre),
    {
        self.radius = radius;
        self.set_centre(centre);
    }

    /// Move the window. Enqueues newly covered indices and evicts those left behind.
    ///
    /// Cheap enough to call on every navigation keystroke.
    pub fn set_centre(&mut self, centre: usize)
        ensures
            final(self)@ == old(self)@.recentred(centre),
    {
        let ghost before = self@;
        self.centre = centre;
        self.queue.clear();
        let (lo, hi) = match self.window() {
            Some(w) => w,
            None => {
                // Nothing to show. Clear everything so no slot can linger as `Queued`
                // with no job able to claim it.
                self.slots.clear();
                self.needed.clear();
                return;
            },
        };
        let keys = table::indices(&self.slots);
        let ghost slots = self.slots@;
        assert(self.slots@ == surviving(slots, keys@.take(0), lo as int, hi as int, before));
        for k in 0..keys.len()
            invariant
                self@ == (Ring { centre, queue: Seq::empty(), slots: self.slots@, ..before }),
                keys@.to_set() == slots.dom(),
                slots == before.slots,
                self.slots@ == surviving(
                    slots,
                    keys@.take(k as int),
                    lo as int,
                    hi as int,
                    before,
                ),
        {
            let i = keys[k];
            proof {
                table::lemma_taken(keys@, k as int);
            }
            let inside = lo <= i && i <= hi;
            let waiting = self.state(i) == State::Queued && self.is_needed(i);
            if !inside && self.state(i) != State::Decoding && !self.is_hint(i) && !waiting {
                self.slots.remove(&i);
            }
            assert(self.slots@ == surviving(
                slots,
                keys@.take(k + 1),
                lo as int,
                hi as int,
                before,
            ));
        }
        let ghost kept = self.slots@;
        proof {
            assert(keys@.take(keys@.len() as int) == keys@);
            assert forall|i: usize| slots.contains_key(i) implies keys@.contains(i) by {
                assert(keys@.to_set().contains(i));
            }
        }
        let mut i: usize = lo;
        while i <= hi
            invariant
                lo <= i <= hi + 1,
                hi < usize::MAX,
                self@ == (Ring {
                    centre,
                    queue: self.queue@,
                    slots: self.slots@,
                    ..before
                }),
                forall|j: usize|
                    self.slots@.contains_key(j) <==> kept.contains_key(j) || lo <= j < i,
                forall|j: usize| #[trigger]
                    self.slots@.contains_key(j) ==> self.slots@[j] == (if kept.contains_key(j) {
                        kept[j]
                    } else {
                        Slot::Queued
                    }),
                self.queue@ == jobs(self.slots@, lo as int, i as int, centre),
            decreases hi + 1 - i,
        {
            let ghost was = self.slots@;
            if !self.slots.contains_key(&i) {
                self.slots.insert(i, Slot::Queued);
            }
            proof {
                lemma_jobs_frame(was, self.slots@, lo as int, i as int, centre);
            }
            if self.state(i) == State::Queued {
                let distance: usize = if i < centre {
                    centre - i
                } else {
                    i - centre
                };
                self.queue.push(Job { distance, index: i });
            }
            i = i + 1;
        }
        let ghost window = self.queue@;
        assert(self.slots@ == windowed(slots, lo as int, hi as int, before.hint, before.needed));
        // What is wanted outside the window keeps its job too, at distance 0.
        let ghost needed = self.needed@;
        assert(window == window + needed_jobs(
            self.slots@,
            lo as int,
            hi as int,
            needed.take(0),
        ));
        let outside: usize = self.needed.len();
        for k in 0..outside
            invariant
                outside == needed.len(),
                self@ == (Ring {
                    centre,
                    queue: self.queue@,
                    slots: self.slots@,
                    ..before
                }),
                needed == before.needed,
                self.slots@ == windowed(
                    slots,
                    lo as int,
                    hi as int,
                    before.hint,
                    before.needed,
                ),
                self.queue@ == window + needed_jobs(
                    self.slots@,
                    lo as int,
                    hi as int,
                    needed.take(k as int),
                ),
        {
            let i = self.needed[k];
            assert(needed.take(k + 1).drop_last() == needed.take(k as int));
            if !(lo <= i && i <= hi) && self.state(i) == State::Queued {
                self.queue.push(Job { distance: 0, index: i });
            }
        }
        assert(needed.take(needed.len() as int) == needed);
        if let Some(i) = self.hint {
            assert(needed.push(i).drop_last() == needed);
            if !(lo <= i && i <= hi) && self.state(i) == State::Queued {
                self.queue.push(Job { distance: 0, index: i });
            }
        }
        assert(self@ == before.recentred(centre));
    }

    /// Ask for `index` to be decoded soon without moving the window.
    ///
    /// Used when the pointer hovers a sidebar row: the user is likely to click it, so the
    /// image should already be resident by the time they do. Only one hint is kept, so
    /// sweeping the pointer down a long list does not queue unbounded work.
    pub fn hint(&mut self, index: usize)
        ensures
            final(self)@ == old(self)@.hinted(index),
    {
        if self.is_hint(index) || index >= self.paths.len() {
            return;
        }
        let ghost before = self@;
        let wanted = self.wanted(index);
        // Drop the previous hint unless the window wants it anyway.
        if let Some(old) = self.hint {
            if !self.in_window(old) && self.state(old) != State::Decoding && !self.is_needed(old) {
                self.slots.remove(&old);
            }
        }
        assert(self.slots@ == before.unhinted_slots());
        self.hint = Some(index);
        if self.slots.contains_key(&index) && (wanted || self.state(index) != State::Queued) {
            // Already known: nothing to schedule.
            return;
        }
        self.slots.insert(index, Slot::Queued);
        // Distance 0 so it outranks the rest of the window.
        self.queue.push(Job { distance: 0, index });
    }

    /// Clear the hover hint. The slot becomes evictable on the next window move.
    pub fn clear_hint(&mut self)
        ensures
            final(self)@ == (Ring { hint: None, ..old(self)@ }),
    {
        self.hint = None;
    }

    /// Replace the path list and re-centre.
    ///
    /// Every slot is dropped, because indices refer to positions in the list and a
    /// deletion shifts everything after it: keeping old slots would show the wrong
    /// image. In-flight decodes are left to finish and discard themselves, since they
    /// can no longer own a slot.
    pub fn reset(&mut self, paths: Vec<String>, centre: usize)
        ensures
            final(self)@ == old(self)@.renewed(scan::strings(paths@), centre),
    {
        self.paths = paths;
        self.slots.clear();
        self.queue.clear();
        self.needed.clear();
        self.epoch = if self.epoch < u64::MAX {
            self.epoch + 1
        } else {
            0
        };
        self.set_centre(centre);
    }

    /// Collect every decoded image that the renderer has not yet taken, in no particular
    /// order.
    ///
    /// Slots move to [`State::Collected`] and release their pixels.
    pub fn take_ready(&mut self) -> (r: Vec<(usize, Box<Image>)>)
        ensures
            final(self)@ == (Ring { slots: old(self)@.collected_slots(), ..old(self)@ }),
            forall|n: int, m: int| 0 <= n < m < r@.len() ==> r@[n].0 != r@[m].0,
            forall|n: int|
                0 <= n < r@.len() ==> old(self)@.state((#[trigger] r@[n]).0) == State::Ready
                    && old(self)@.slots[r@[n].0] == Slot::Ready(r@[n].1),
            forall|i: usize|
                old(self)@.state(i) == State::Ready ==> exists|n: int|
                    0 <= n < r@.len() && (#[trigger] r@[n]).0 == i,
    {
        let keys = table::indices(&self.slots);
        let ghost before = self@;
        let mut r: Vec<(usize, Box<Image>)> = Vec::new();
        for k in 0..keys.len()
            invariant
                keys@.no_duplicates(),
                keys@.to_set() == before.slots.dom(),
                self@ == (Ring { slots: self.slots@, ..before }),
                self.slots@.dom() == before.slots.dom(),
                forall|j: int|
                    k <= j < keys@.len() ==> self.slots@[#[trigger] keys@[j]]
                        == before.slots[keys@[j]],
                forall|j: int|
                    0 <= j < k ==> self.slots@[#[trigger] keys@[j]]
                        == before.collected_slots()[keys@[j]],
                forall|n: int, m: int| 0 <= n < m < r@.len() ==> r@[n].0 != r@[m].0,
                forall|n: int|
                    0 <= n < r@.len() ==> {
                        &&& before.state((#[trigger] r@[n]).0) == State::Ready
                        &&& before.slots[r@[n].0] == Slot::Ready(r@[n].1)
                        &&& keys@.take(k as int).contains(r@[n].0)
                    },
                forall|j: int|
                    0 <= j < k && before.state(#[trigger] keys@[j]) == State::Ready ==> exists|
                        n: int,
                    |
                        0 <= n < r@.len() && (#[trigger] r@[n]).0 == keys@[j],
        {
            let i = keys[k];
            assert(before.slots.dom().contains(i)) by {
                assert(keys@.to_set().contains(keys@[k as int]));
            }
            let ghost taken = r@;
            let ghost was = self.slots@;
            assert(!keys@.take(k as int).contains(i)) by {
                let done = keys@.take(k as int);
                if done.contains(i) {
                    let n = choose|n: int| 0 <= n < done.len() && done[n] == i;
                    assert(keys@[n] == keys@[k as int]);
                }
            }
            if self.state(i) == State::Ready {
                if let Some(Slot::Ready(image)) = self.slots.insert(i, Slot::Collected) {
                    r.push((i, image));
                }
                assert(self.slots@.dom() == was.dom());
                assert(r@.len() == taken.len() + 1);
            }
            proof {
                assert forall|n: int| 0 <= n < r@.len() implies keys@.take(k + 1).contains(
                    (#[trigger] r@[n]).0,
                ) by {
                    table::lemma_taken(keys@, k as int);
                    if n < taken.len() {
                        assert(r@[n] == taken[n]);
                    }
                }
                assert forall|j: int|
                    0 <= j < k + 1 && before.state(
                        #[trigger] keys@[j],
                    ) == State::Ready implies exists|n: int|
                    0 <= n < r@.len() && (#[trigger] r@[n]).0 == keys@[j] by {
                    if j < k {
                        let n = choose|n: int|
                            0 <= n < taken.len() && (#[trigger] taken[n]).0 == keys@[j];
                        assert(r@[n] == taken[n]);
                    } else {
                        assert(r@[taken.len() as int].0 == i);
                    }
                }
            }
        }
        proof {
            assert forall|i: usize| before.slots.contains_key(i) implies keys@.contains(i) by {
                assert(keys@.to_set().contains(i));
            }
            assert(self.slots@ == before.collected_slots()) by {
                assert forall|i: usize| before.slots.contains_key(i) implies self.slots@[i]
                    == before.collected_slots()[i] by {
                    let j = choose|j: int| 0 <= j < keys@.len() && keys@[j] == i;
                    assert(self.slots@[keys@[j]] == before.collected_slots()[keys@[j]]);
                }
            }
            assert forall|i: usize| before.state(i) == State::Ready implies exists|n: int|
                0 <= n < r@.len() && (#[trigger] r@[n]).0 == i by {
                let j = choose|j: int| 0 <= j < keys@.len() && keys@[j] == i;
                assert(before.state(keys@[j]) == State::Ready);
            }
        }
        r
    }

    /// Return an image collected by [`Prefetcher::take_ready`] but not yet uploaded.
    ///
    /// Lets the renderer bound how much it uploads per frame without discarding the
    /// pixels it chose to defer.
    pub fn put_back(&mut self, index: usize, image: Box<Image>)
        ensures
            final(self)@ == old(self)@.returned(index, image),
    {
        if self.wanted(index) && self.state(index) == State::Collected {
            self.slots.insert(index, Slot::Ready(image));
        }
    }

    /// Ensure `index` will be decoded again, even if it was already collected.
    ///
    /// The renderer takes ownership of pixels when it uploads them, so the ring keeps no
    /// copy. If the texture is later evicted the image would be unreachable: the ring
    /// thinks it is done and will not redo the work. This is the repair path, used when
    /// the renderer finds it has no texture for the current image. A previous failure is
    /// retried as well, since the file may have reappeared.
    ///
    /// Queued at distance 0, since it is needed right now, wherever the window is.
    pub fn require(&mut self, index: usize)
        ensures
            final(self)@ == old(self)@.required(index),
    {
        if index >= self.paths.len() {
            return;
        }
        let s = self.state(index);
        if s == State::Ready {
            return;
        }
        let wanted = self.wanted(index);
        if !self.in_window(index) && !self.is_needed(index) {
            self.needed.push(index);
        }
        if s == State::Decoding || (s == State::Queued && wanted) {
            // On its way already.
            return;
        }
        self.slots.insert(index, Slot::Queued);
        self.queue.push(Job { distance: 0, index });
    }

    /// Failure message for a slot, if it failed.
    pub fn failure(&self, index: usize) -> (r: Option<String>)
        ensures
            match r {
                Some(m) => self@.slots.contains_key(index) && (
                self@.slots[index] matches Slot::Failed(f) && f@ == m@),
                None => self@.state(index) != State::Failed,
            },
    {
        match self.slots.get(&index) {
            Some(Slot::Failed(m)) => Some(m.clone()),
            _ => None,
        }
    }

    pub fn stats(&self) -> (s: Stats)
        ensures
            s == self@.stats,
    {
        self.stats
    }

    /// Take the next job. `None` when nothing is to be done.
    pub fn claim(&mut self) -> (r: Option<Claim>)
        ensures
            final(self)@ == old(self)@.claimed().0,
            match r {
                Some(c) => {
                    &&& old(self)@.claimed().1 == Some(c.index)
                    &&& c.index < old(self)@.paths.len()
                    &&& c.path@ == old(self)@.paths[c.index as int]
                    &&& c.epoch == old(self)@.epoch
                },
                None => old(self)@.claimed().1 is None,
            },
    {
        let ghost before = self@;
        while self.queue.len() > 0
            invariant
                before == old(self)@,
                before.claimed() == self@.claimed(),
                self@.paths == before.paths,
                self@.epoch == before.epoch,
            decreases self.queue@.len(),
        {
            let mut k: usize = 0;
            let len: usize = self.queue.len();
            for n in 1..len
                invariant
                    len == self.queue@.len(),
                    k < n <= len,
                    k == nearest(self.queue@.take(n as int)),
            {
                assert(self.queue@.take(n + 1).drop_last() == self.queue@.take(n as int));
                if self.queue[n].is_nearer(self.queue[k]) {
                    k = n;
                }
            }
            assert(self.queue@.take(len as int) == self.queue@);
            let ghost r = self@;
            let job = self.queue.remove(k);
            assert(self@ == Ring { queue: r.queue.remove(k as int), ..r });
            assert(self@.wanted(job.index) == r.wanted(job.index));
            if !self.wanted(job.index) {
                // Stale: the window moved after this job was queued.
                self.stats.skipped = bump(self.stats.skipped);
                assert(self@ == Ring {
                    queue: r.queue.remove(k as int),
                    stats: Stats { skipped: bumped(r.stats.skipped), ..r.stats },
                    ..r
                });
                continue ;
            }
            if self.state(job.index) != State::Queued {
                // Another worker already took it, or it is already done.
                continue ;
            }
            let path = self.paths[job.index].clone();
            self.slots.insert(job.index, Slot::Decoding);
            assert(self@ == Ring {
                queue: r.queue.remove(k as int),
                slots: r.slots.insert(job.index, Slot::Decoding),
                ..r
            });
            assert(r.claimed() == (self@, Some(job.index)));
            return Some(Claim { index: job.index, path, epoch: self.epoch });
        }
        None
    }

    /// Hand in the result of a decode, unless the window moved on meanwhile.
    ///
    /// Only touches the slot if it still holds this decode's own marker. If it has become
    /// anything else, another worker owns it now; overwriting or removing it would destroy
    /// their result.
    pub fn publish(&mut self, index: usize, epoch: u64, result: Result<Image, String>)
        ensures
            final(self)@ == old(self)@.published(index, epoch, result),
    {
        let owns = epoch == self.epoch && self.state(index) == State::Decoding;
        if owns && self.wanted(index) {
            self.meet(index);
            match result {
                Ok(image) => {
                    self.stats.decoded = bump(self.stats.decoded);
                    self.slots.insert(index, Slot::Ready(Box::new(image)));
                },
                Err(m) => {
                    // Remembered as failed so it is never retried in a loop.
                    self.stats.failed = bump(self.stats.failed);
                    self.slots.insert(index, Slot::Failed(m));
                },
            }
            return;
        }
        // Unwanted: the window moved on. Dropping the result here frees the pixels
        // immediately.
        if result.is_err() {
            self.stats.failed = bump(self.stats.failed);
        }
        self.stats.discarded = bump(self.stats.discarded);
        if owns {
            self.slots.remove(&index);
        }
    }
}

/// `slots` without those of `done` that lie outside the window and do not stay.
spec fn surviving(slots: Map<usize, Slot>, done: Seq<usize>, lo: int, hi: int, r: Ring) -> Map<
    usize,
    Slot,
> {
    Map::new(
        |i: usize|
            slots.contains_key(i) && (lo <= i <= hi || stays(slots[i], i, r.hint, r.needed)
                || !done.contains(i)),
        |i: usize| slots[i],
    )
}

/// Jobs depend only on which slots of the range are queued.
proof fn lemma_jobs_frame(
    a: Map<usize, Slot>,
    b: Map<usize, Slot>,
    lo: int,
    n: int,
    centre: usize,
)
    requires
        0 <= lo,
        n <= usize::MAX,
        forall|i: usize| lo <= i < n ==> (#[trigger] a[i] is Queued) == (b[i] is Queued),
    ensures
        jobs(a, lo, n, centre) == jobs(b, lo, n, centre),
    decreases n - lo,
{
    if n > lo {
        lemma_jobs_frame(a, b, lo, n - 1, centre);
        assert((a[(n - 1) as usize] is Queued) == (b[(n - 1) as usize] is Queued));
    }
}

/// The indices whose slot is in the given state.
pub open spec fn in_state(slots: Map<usize, Slot>, s: State) -> Set<usize> {
    slots.dom().filter(|i: usize| slots[i].spec_state() == s)
}

impl Prefetcher {
    /// The indices in the given state, each once, in no particular order.
    fn indices_in(&self, s: State) -> (r: Vec<usize>)
        ensures
            r@.no_duplicates(),
            r@.to_set() == in_state(self@.slots, s),
    {
        let keys = table::indices(&self.slots);
        let mut r: Vec<usize> = Vec::new();
        for k in 0..keys.len()
            invariant
                keys@.no_duplicates(),
                keys@.to_set() == self@.slots.dom(),
                r@.no_duplicates(),
                forall|i: usize| #[trigger]
                    r@.contains(i) <==> keys@.take(k as int).contains(i) && in_state(
                        self@.slots,
                        s,
                    ).contains(i),
        {
            let i = keys[k];
            let ghost was = r@;
            proof {
                table::lemma_taken(keys@, k as int);
                assert(keys@.to_set().contains(keys@[k as int]));
                let done = keys@.take(k as int);
                if done.contains(i) {
                    let n = choose|n: int| 0 <= n < done.len() && done[n] == i;
                    assert(keys@[n] == keys@[k as int]);
                }
            }
            if self.state(i) == s {
                r.push(i);
                proof {
                    table::lemma_pushed(was, i);
                }
            }
        }
        proof {
            assert(keys@.take(keys@.len() as int) == keys@);
            assert forall|i: usize| in_state(self@.slots, s).contains(i) implies keys@.contains(
                i,
            ) by {
                assert(keys@.to_set().contains(i));
            }
            assert(r@.to_set() =~= in_state(self@.slots, s));
        }
        r
    }

    /// Indices whose load failed, gathered in one go.
    ///
    /// The sidebar needs this per row, and a directory can hold hundreds of rows, so the UI
    /// takes one snapshot instead of asking for each.
    pub fn failed_indices(&self) -> (r: Vec<usize>)
        ensures
            r@.no_duplicates(),
            r@.to_set() == in_state(self@.slots, State::Failed),
    {
        self.indices_in(State::Failed)
    }

    /// Number of slots currently holding pixels.
    pub fn resident(&self) -> (n: usize)
        ensures
            n == in_state(self@.slots, State::Ready).len(),
    {
        let r = self.indices_in(State::Ready);
        proof {
            r@.unique_seq_to_set();
        }
        r.len()
    }

    /// Nothing is queued or being decoded.
    pub fn is_idle(&self) -> (r: bool)
        ensures
            r == (in_state(self@.slots, State::Queued).is_empty() && in_state(
                self@.slots,
                State::Decoding,
            ).is_empty()),
    {
        let queued = self.indices_in(State::Queued);
        let decoding = self.indices_in(State::Decoding);
        proof {
            lemma_empty(queued@);
            lemma_empty(decoding@);
        }
        queued.len() == 0 && decoding.len() == 0
    }
}

proof fn lemma_empty(s: Seq<usize>)
    ensures
        s.len() == 0 <==> s.to_set().is_empty(),
{
    if s.len() > 0 {
        assert(s.to_set().contains(s[0]));
    } else {
        assert(s.to_set() =~= Set::<usize>::empty());
    }
}

impl Ring {
    /// No slot stands for a path that does not exist, and what was required is on its way.
    pub open spec fn sound(self) -> bool {
        &&& forall|i: usize| #[trigger] self.slots.contains_key(i) ==> i < self.paths.len()
        &&& forall|i: usize| #[trigger]
            self.needed.contains(i) ==> self.state(i) == State::Queued || self.state(i)
                == State::Decoding
    }

    /// No slot is wedged: each one that is wanted and that is waiting has a job by which a worker
    /// can claim it.
    pub open spec fn wf(self) -> bool {
        &&& self.sound()
        &&& forall|i: usize| #[trigger]
            self.state(i) == State::Queued && self.wanted(i) ==> has_job(self.queue, i)
    }

    /// Each index in the window has a slot.
    pub open spec fn covers(self) -> bool {
        forall|i: usize| #[trigger] self.in_window(i) ==> self.slots.contains_key(i)
    }
}

/// The queue holds a job for `index`.
pub open spec fn has_job(q: Seq<Job>, index: usize) -> bool {
    exists|k: int| 0 <= k < q.len() && (#[trigger] q[k]).index == index
}

proof fn lemma_jobs_complete(slots: Map<usize, Slot>, lo: int, n: int, centre: usize, i: usize)
    requires
        0 <= lo <= i < n,
        slots[i] is Queued,
    ensures
        has_job(jobs(slots, lo, n, centre), i),
    decreases n - lo,
{
    let q = jobs(slots, lo, n, centre);
    let init = jobs(slots, lo, n - 1, centre);
    if i == n - 1 {
        assert(q[init.len() as int].index == i);
    } else {
        lemma_jobs_complete(slots, lo, n - 1, centre, i);
        let k = choose|k: int| 0 <= k < init.len() && (#[trigger] init[k]).index == i;
        assert(q[k] == init[k]);
    }
}

proof fn lemma_pushed_job(q: Seq<Job>, job: Job, i: usize)
    ensures
        has_job(q, i) ==> has_job(q.push(job), i),
        has_job(q.push(job), job.index),
{
    if has_job(q, i) {
        let k = choose|k: int| 0 <= k < q.len() && (#[trigger] q[k]).index == i;
        assert(q.push(job)[k] == q[k]);
    }
    assert(q.push(job)[q.len() as int] == job);
}

/// Moving the window leaves nothing wedged, whatever was scheduled before: what it covers has a
/// slot, and every slot that is wanted and waiting has a job, the hint's and what was required
/// included.
pub proof fn law_recentring_schedules_the_window(r: Ring, centre: usize)
    requires
        r.sound(),
    ensures
        r.recentred(centre).wf(),
        r.recentred(centre).covers(),
{
    let s = r.recentred(centre);
    if let Some((lo, hi)) = s.window() {
        let extra = exempted(s.hint, s.needed);
        assert forall|i: usize| #[trigger] s.state(i) == State::Queued && s.wanted(i) implies has_job(
            s.queue,
            i,
        ) by {
            let inside = jobs(s.slots, lo, hi + 1, centre);
            let outside = needed_jobs(s.slots, lo, hi, extra);
            if lo <= i <= hi {
                lemma_jobs_complete(s.slots, lo, hi + 1, centre, i);
                let k = choose|k: int| 0 <= k < inside.len() && (#[trigger] inside[k]).index == i;
                assert(s.queue[k] == inside[k]);
            } else {
                assert(extra.contains(i)) by {
                    if s.hint == Some(i) {
                        assert(extra[extra.len() - 1] == i);
                    } else {
                        let n = choose|n: int| 0 <= n < s.needed.len() && s.needed[n] == i;
                        assert(extra[n] == i);
                    }
                }
                lemma_needed_jobs_complete(s.slots, lo, hi, extra, i);
                let k = choose|k: int| 0 <= k < outside.len() && (#[trigger] outside[k]).index == i;
                assert(s.queue[inside.len() + k] == outside[k]);
            }
        }
        assert forall|i: usize| #[trigger] s.needed.contains(i) implies s.state(i) == State::Queued
            || s.state(i) == State::Decoding by {
            assert(r.needed.contains(i));
            assert(r.state(i) == State::Queued || r.state(i) == State::Decoding);
        }
    }
}

proof fn lemma_needed_jobs_complete(
    slots: Map<usize, Slot>,
    lo: int,
    hi: int,
    needed: Seq<usize>,
    i: usize,
)
    requires
        needed.contains(i),
        !(lo <= i <= hi),
        is_queued(slots, i),
    ensures
        has_job(needed_jobs(slots, lo, hi, needed), i),
    decreases needed.len(),
{
    let q = needed_jobs(slots, lo, hi, needed);
    let init = needed_jobs(slots, lo, hi, needed.drop_last());
    if needed.last() == i {
        assert(q[init.len() as int].index == i);
    } else {
        let n = choose|n: int| 0 <= n < needed.len() && needed[n] == i;
        assert(needed.drop_last()[n] == i);
        lemma_needed_jobs_complete(slots, lo, hi, needed.drop_last(), i);
        let k = choose|k: int| 0 <= k < init.len() && (#[trigger] init[k]).index == i;
        assert(q[k] == init[k]);
    }
}

proof fn lemma_without(s: Seq<usize>, index: usize, i: usize)
    ensures
        without(s, index).contains(i) <==> s.contains(i) && i != index,
    decreases s.len(),
{
    if s.len() > 0 {
        let init = s.drop_last();
        lemma_without(init, index, i);
        assert(init.push(s.last()) == s);
        table::lemma_pushed(init, s.last());
        table::lemma_pushed(without(init, index), s.last());
    }
}

/// A hint leaves nothing wedged: it has a job wherever it waits.
proof fn lemma_hinted(r: Ring, index: usize)
    requires
        r.wf(),
    ensures
        r.hinted(index).wf(),
        r.covers() ==> r.hinted(index).covers(),
{
    let h = r.hinted(index);
    assert forall|i: usize| h.in_window(i) == r.in_window(i) by {}
    assert forall|i: usize| #[trigger] h.needed.contains(i) implies h.state(i) == State::Queued
        || h.state(i) == State::Decoding by {
        assert(r.needed.contains(i));
    }
    assert forall|i: usize| #[trigger] h.state(i) == State::Queued && h.wanted(i) implies has_job(
        h.queue,
        i,
    ) by {
        lemma_pushed_job(r.queue, Job { distance: 0, index }, i);
        if i != index {
            assert(r.state(i) == State::Queued && r.wanted(i));
        }
    }
}

/// What is required is decoded: wherever the window is, it waits with a job or is on its way.
proof fn lemma_required(r: Ring, index: usize)
    requires
        r.wf(),
    ensures
        r.required(index).wf(),
        r.covers() ==> r.required(index).covers(),
{
    let q = r.required(index);
    assert forall|i: usize| q.in_window(i) == r.in_window(i) by {}
    table::lemma_pushed(r.needed, index);
    assert forall|i: usize| #[trigger] q.needed.contains(i) implies q.state(i) == State::Queued
        || q.state(i) == State::Decoding by {
        if i != index {
            assert(r.needed.contains(i));
        }
    }
    assert forall|i: usize| #[trigger] q.state(i) == State::Queued && q.wanted(i) implies has_job(
        q.queue,
        i,
    ) by {
        lemma_pushed_job(r.queue, Job { distance: 0, index }, i);
        if i != index {
            assert(r.state(i) == State::Queued && r.wanted(i));
        }
    }
}

proof fn lemma_published(r: Ring, index: usize, epoch: u64, result: Result<Image, String>)
    requires
        r.wf(),
    ensures
        r.published(index, epoch, result).wf(),
        r.covers() ==> r.published(index, epoch, result).covers(),
{
    let p = r.published(index, epoch, result);
    assert forall|i: usize| p.in_window(i) == r.in_window(i) by {}
    assert forall|i: usize| #[trigger] p.needed.contains(i) implies p.state(i) == State::Queued
        || p.state(i) == State::Decoding by {
        lemma_without(r.needed, index, i);
        assert(r.needed.contains(i));
        if i == index && r.owns(index, epoch) {
            assert(r.slots.contains_key(index));
            assert(r.wanted(index));
        }
    }
    assert forall|i: usize| #[trigger] p.state(i) == State::Queued && p.wanted(i) implies has_job(
        p.queue,
        i,
    ) by {
        lemma_without(r.needed, index, i);
        assert(r.state(i) == State::Queued && r.wanted(i));
    }
}

proof fn lemma_handed_over(r: Ring, index: usize, image: Box<Image>)
    requires
        r.wf(),
    ensures
        r.returned(index, image).wf(),
        r.covers() ==> r.returned(index, image).covers(),
        (Ring { slots: r.collected_slots(), ..r }).wf(),
        r.covers() ==> (Ring { slots: r.collected_slots(), ..r }).covers(),
        (Ring { hint: None, ..r }).wf(),
        r.covers() ==> (Ring { hint: None, ..r }).covers(),
{
    let b = r.returned(index, image);
    assert forall|i: usize| b.in_window(i) == r.in_window(i) by {}
    assert forall|i: usize| #[trigger] b.needed.contains(i) implies b.state(i) == State::Queued
        || b.state(i) == State::Decoding by {
        assert(r.needed.contains(i));
    }
    assert forall|i: usize| #[trigger] b.state(i) == State::Queued && b.wanted(i) implies has_job(
        b.queue,
        i,
    ) by {
        assert(r.state(i) == State::Queued && r.wanted(i));
    }
    let t = Ring { slots: r.collected_slots(), ..r };
    assert forall|i: usize| t.in_window(i) == r.in_window(i) by {}
    assert forall|i: usize| #[trigger] t.needed.contains(i) implies t.state(i) == State::Queued
        || t.state(i) == State::Decoding by {
        assert(r.needed.contains(i));
    }
    assert forall|i: usize| #[trigger] t.state(i) == State::Queued && t.wanted(i) implies has_job(
        t.queue,
        i,
    ) by {
        assert(r.state(i) == State::Queued && r.wanted(i));
    }
    let c = Ring { hint: None, ..r };
    assert forall|i: usize| c.in_window(i) == r.in_window(i) by {}
    assert forall|i: usize| #[trigger] c.needed.contains(i) implies c.state(i) == State::Queued
        || c.state(i) == State::Decoding by {
        assert(r.needed.contains(i));
    }
    assert forall|i: usize| #[trigger] c.state(i) == State::Queued && c.wanted(i) implies has_job(
        c.queue,
        i,
    ) by {
        assert(r.state(i) == State::Queued && r.wanted(i));
    }
}

/// Every operation keeps the ring free of wedged slots, and the window covered.
pub proof fn law_no_slot_is_wedged(
    r: Ring,
    index: usize,
    epoch: u64,
    result: Result<Image, String>,
    image: Box<Image>,
)
    requires
        r.wf(),
    ensures
        r.hinted(index).wf(),
        (Ring { hint: None, ..r }).wf(),
        r.required(index).wf(),
        r.published(index, epoch, result).wf(),
        r.returned(index, image).wf(),
        (Ring { slots: r.collected_slots(), ..r }).wf(),
        r.covers() ==> {
            &&& r.hinted(index).covers()
            &&& (Ring { hint: None, ..r }).covers()
            &&& r.required(index).covers()
            &&& r.published(index, epoch, result).covers()
            &&& r.returned(index, image).covers()
            &&& (Ring { slots: r.collected_slots(), ..r }).covers()
        },
{
    lemma_hinted(r, index);
    lemma_required(r, index);
    lemma_published(r, index, epoch, result);
    lemma_handed_over(r, index, image);
}

/// Taking a job off the queue that is not worth doing leaves nothing wedged.
proof fn lemma_dropped(r: Ring, k: int, stats: Stats)
    requires
        r.wf(),
        0 <= k < r.queue.len(),
        !(r.wanted(r.queue[k].index) && r.state(r.queue[k].index) == State::Queued),
    ensures
        (Ring { queue: r.queue.remove(k), stats, ..r }).wf(),
{
    let s = Ring { queue: r.queue.remove(k), stats, ..r };
    assert forall|i: usize| s.in_window(i) == r.in_window(i) by {}
    assert forall|i: usize| #[trigger] s.needed.contains(i) implies s.state(i) == State::Queued
        || s.state(i) == State::Decoding by {
        assert(r.needed.contains(i));
        assert(r.state(i) == s.state(i));
    }
    assert forall|i: usize| #[trigger] s.state(i) == State::Queued && s.wanted(i) implies has_job(
        s.queue,
        i,
    ) by {
        assert(r.state(i) == State::Queued && r.wanted(i));
        lemma_removed_job(r.queue, k, i);
    }
}

proof fn lemma_removed_job(q: Seq<Job>, k: int, i: usize)
    requires
        0 <= k < q.len(),
        q[k].index != i,
        has_job(q, i),
    ensures
        has_job(q.remove(k), i),
{
    let n = choose|n: int| 0 <= n < q.len() && (#[trigger] q[n]).index == i;
    if n < k {
        assert(q.remove(k)[n] == q[n]);
    } else {
        assert(q.remove(k)[n - 1] == q[n]);
    }
}

/// Taking a job leaves nothing wedged, and nothing else moves: the slot that is claimed goes
/// from queued to decoding, the others stay as they are.
pub proof fn law_claiming_wedges_nothing(r: Ring)
    requires
        r.wf(),
    ensures
        r.claimed().0.wf(),
        r.covers() ==> r.claimed().0.covers(),
        r.claimed().1 matches Some(i) ==> r.wanted(i) && r.state(i) == State::Queued
            && r.claimed().0.slots == r.slots.insert(i, Slot::Decoding),
        r.claimed().1 is None ==> r.claimed().0.slots == r.slots && r.claimed().0.queue.len() == 0,
    decreases r.queue.len(),
{
    lemma_claimed_frame(r);
    let c = r.claimed().0;
    assert forall|i: usize| c.in_window(i) == r.in_window(i) by {}
    if r.queue.len() > 0 {
        lemma_nearest(r.queue);
        let k = nearest(r.queue);
        let index = r.queue[k].index;
        let rest = Ring { queue: r.queue.remove(k), ..r };
        let skipped = Ring {
            stats: Stats { skipped: bumped(r.stats.skipped), ..r.stats },
            ..rest
        };
        if !r.wanted(index) {
            lemma_dropped(r, k, skipped.stats);
            assert(forall|i: usize| skipped.wanted(i) == r.wanted(i));
            assert(forall|i: usize| skipped.state(i) == r.state(i));
            law_claiming_wedges_nothing(skipped);
        } else if r.state(index) != State::Queued {
            lemma_dropped(r, k, r.stats);
            assert(forall|i: usize| rest.wanted(i) == r.wanted(i));
            assert(forall|i: usize| rest.state(i) == r.state(i));
            law_claiming_wedges_nothing(rest);
        } else {
            assert forall|i: usize| #[trigger] c.needed.contains(i) implies c.state(i)
                == State::Queued || c.state(i) == State::Decoding by {
                assert(r.needed.contains(i));
                assert(i != index ==> r.state(i) == c.state(i));
            }
            assert forall|i: usize| #[trigger] c.state(i) == State::Queued && c.wanted(i) implies has_job(
                c.queue,
                i,
            ) by {
                assert(r.state(i) == State::Queued && r.wanted(i));
                lemma_removed_job(r.queue, k, i);
            }
        }
    }
}

/// Taking a job shortens the queue, and touches nothing but slots and counters besides.
pub proof fn lemma_claimed_frame(r: Ring)
    ensures
        r.claimed().0 == (Ring {
            queue: r.claimed().0.queue,
            slots: r.claimed().0.slots,
            stats: r.claimed().0.stats,
            ..r
        }),
        r.claimed().1 is Some ==> r.claimed().0.queue.len() < r.queue.len(),
        r.claimed().0.queue.len() <= r.queue.len(),
    decreases r.queue.len(),
{
    if r.queue.len() > 0 {
        lemma_nearest(r.queue);
        let k = nearest(r.queue);
        let index = r.queue[k].index;
        let rest = Ring { queue: r.queue.remove(k), ..r };
        if !r.wanted(index) {
            lemma_claimed_frame(
                Ring {
                    stats: Stats { skipped: bumped(r.stats.skipped), ..r.stats },
                    ..rest
                },
            );
        } else if r.state(index) != State::Queued {
            lemma_claimed_frame(rest);
        }
    }
}

/// There is a job for a waiting slot that is wanted, at position `n`.
spec fn claimable(r: Ring, n: int) -> bool {
    0 <= n < r.queue.len() && r.wanted(r.queue[n].index) && r.state(r.queue[n].index)
        == State::Queued
}

/// The job that is taken is the nearest of those that can be; and none is taken only when none
/// can be.
pub proof fn law_nearest_is_claimed_first(r: Ring)
    ensures
        r.claimed().1 matches Some(index) ==> exists|k: int|
            {
                &&& 0 <= k < r.queue.len()
                &&& (#[trigger] r.queue[k]).index == index
                &&& forall|n: int|
                    0 <= n < r.queue.len() && r.wanted((#[trigger] r.queue[n]).index) && r.state(
                        r.queue[n].index,
                    ) == State::Queued ==> !r.queue[n].nearer(r.queue[k])
            },
        r.claimed().1 is None ==> forall|n: int|
            0 <= n < r.queue.len() ==> !(r.wanted((#[trigger] r.queue[n]).index) && r.state(
                r.queue[n].index,
            ) == State::Queued),
    decreases r.queue.len(),
{
    if r.queue.len() > 0 {
        lemma_nearest(r.queue);
        let k = nearest(r.queue);
        let index = r.queue[k].index;
        if claimable(r, k) {
            assert(r.queue[k].index == index);
        } else {
            let stats = if !r.wanted(index) {
                Stats { skipped: bumped(r.stats.skipped), ..r.stats }
            } else {
                r.stats
            };
            let rest = Ring { queue: r.queue.remove(k), stats, ..r };
            assert(r.claimed() == rest.claimed());
            law_nearest_is_claimed_first(rest);
            lemma_claimable_of_rest(r, rest, k);
            lemma_nearest_of_rest(r, rest, k);
        }
    }
}

proof fn lemma_claimable_of_rest(r: Ring, rest: Ring, k: int)
    requires
        0 <= k < r.queue.len(),
        rest == (Ring { queue: r.queue.remove(k), stats: rest.stats, ..r }),
        !claimable(r, k),
    ensures
        forall|n: int| #[trigger]
            claimable(r, n) ==> claimable(
                rest,
                if n < k {
                    n
                } else {
                    n - 1
                },
            ) && rest.queue[if n < k {
                n
            } else {
                n - 1
            }] == r.queue[n],
{
    assert forall|i: usize| rest.wanted(i) == r.wanted(i) by {}
    assert forall|i: usize| rest.state(i) == r.state(i) by {}
}

proof fn lemma_nearest_of_rest(r: Ring, rest: Ring, k: int)
    requires
        0 <= k < r.queue.len(),
        rest.queue == r.queue.remove(k),
        r.claimed() == rest.claimed(),
        !claimable(r, k),
        forall|n: int| #[trigger]
            claimable(r, n) ==> claimable(
                rest,
                if n < k {
                    n
                } else {
                    n - 1
                },
            ) && rest.queue[if n < k {
                n
            } else {
                n - 1
            }] == r.queue[n],
        rest.claimed().1 matches Some(index) ==> exists|m: int|
            {
                &&& 0 <= m < rest.queue.len()
                &&& (#[trigger] rest.queue[m]).index == index
                &&& forall|n: int|
                    0 <= n < rest.queue.len() && rest.wanted((#[trigger] rest.queue[n]).index)
                        && rest.state(rest.queue[n].index) == State::Queued
                        ==> !rest.queue[n].nearer(rest.queue[m])
            },
        rest.claimed().1 is None ==> forall|n: int|
            0 <= n < rest.queue.len() ==> !(rest.wanted((#[trigger] rest.queue[n]).index)
                && rest.state(rest.queue[n].index) == State::Queued),
    ensures
        r.claimed().1 matches Some(index) ==> exists|k: int|
            {
                &&& 0 <= k < r.queue.len()
                &&& (#[trigger] r.queue[k]).index == index
                &&& forall|n: int|
                    0 <= n < r.queue.len() && r.wanted((#[trigger] r.queue[n]).index) && r.state(
                        r.queue[n].index,
                    ) == State::Queued ==> !r.queue[n].nearer(r.queue[k])
            },
        r.claimed().1 is None ==> forall|n: int|
            0 <= n < r.queue.len() ==> !(r.wanted((#[trigger] r.queue[n]).index) && r.state(
                r.queue[n].index,
            ) == State::Queued),
{
    if let Some(found) = rest.claimed().1 {
        let m = choose|m: int|
            {
                &&& 0 <= m < rest.queue.len()
                &&& (#[trigger] rest.queue[m]).index == found
                &&& forall|n: int|
                    0 <= n < rest.queue.len() && rest.wanted((#[trigger] rest.queue[n]).index)
                        && rest.state(rest.queue[n].index) == State::Queued
                        ==> !rest.queue[n].nearer(rest.queue[m])
            };
        let at = if m < k {
            m
        } else {
            m + 1
        };
        assert(r.queue[at] == rest.queue[m]);
        assert forall|n: int|
            0 <= n < r.queue.len() && r.wanted((#[trigger] r.queue[n]).index) && r.state(
                r.queue[n].index,
            ) == State::Queued implies !r.queue[n].nearer(r.queue[at]) by {
            assert(claimable(r, n));
        }
    } else {
        assert forall|n: int| 0 <= n < r.queue.len() implies !(r.wanted(
            (#[trigger] r.queue[n]).index,
        ) && r.state(r.queue[n].index) == State::Queued) by {
            if claimable(r, n) {
                let at = if n < k {
                    n
                } else {
                    n - 1
                };
                assert(claimable(rest, at));
                assert(rest.queue[at] == r.queue[n]);
            }
        }
    }
}

/// Once nothing is left to claim and nothing is being decoded, every image of the window has
/// been loaded or has failed to: none is still waiting, whatever happened on the way.
pub proof fn law_idle_window_is_filled(r: Ring, index: usize)
    requires
        r.wf(),
        r.covers(),
        r.claimed().1 is None,
        r.in_window(index),
        r.state(index) != State::Decoding,
    ensures
        r.state(index) == State::Ready || r.state(index) == State::Collected || r.state(index)
            == State::Failed,
{
    law_nearest_is_claimed_first(r);
    assert(r.slots.contains_key(index));
    if r.state(index) == State::Queued {
        assert(r.wanted(index));
        let k = choose|k: int| 0 <= k < r.queue.len() && (#[trigger] r.queue[k]).index == index;
        assert(r.wanted(r.queue[k].index));
    }
}

impl Ring {
    /// The ring once a worker has done every job there is, when `load` says what becomes of each
    /// index.
    pub open spec fn drained(self, load: spec_fn(usize) -> Result<Image, String>) -> Ring
        decreases self.queue.len(),
    {
        proof {
            lemma_claimed_frame(self);
        }
        match self.claimed() {
            (s, Some(i)) => s.published(i, s.epoch, load(i)).drained(load),
            (s, None) => s,
        }
    }

    /// What is in the ring is waiting, being decoded or collected, or is what `load` gives.
    pub open spec fn holds_only(self, load: spec_fn(usize) -> Result<Image, String>) -> bool {
        forall|i: usize| #[trigger]
            self.slots.contains_key(i) ==> self.slots[i] is Queued || self.slots[i] is Decoding
                || self.slots[i] is Collected || self.slots[i] == loaded(load(i))
    }

    /// The ring after a worker's turn, when `load` says what becomes of each index.
    pub open spec fn after(self, turn: Turn, load: spec_fn(usize) -> Result<Image, String>) -> Ring {
        match turn {
            Turn::Claims => self.claimed().0,
            Turn::Finishes(i) => if self.state(i) == State::Decoding {
                self.published(i, self.epoch, load(i))
            } else {
                self
            },
        }
    }

    /// The ring after the turns of any number of workers, in any order.
    pub open spec fn worked(
        self,
        turns: Seq<Turn>,
        load: spec_fn(usize) -> Result<Image, String>,
    ) -> Ring
        decreases turns.len(),
    {
        if turns.len() == 0 {
            self
        } else {
            self.worked(turns.drop_last(), load).after(turns.last(), load)
        }
    }

    /// Nothing is left to claim, and nothing is being decoded.
    pub open spec fn at_rest(self) -> bool {
        self.claimed().1 is None && forall|i: usize| #[trigger] self.state(i) != State::Decoding
    }
}

/// What a worker does: it claims a job, or finishes a decode that is under way.
pub enum Turn {
    Claims,
    Finishes(usize),
}

/// The slot that a decode leaves behind.
pub open spec fn loaded(result: Result<Image, String>) -> Slot {
    match result {
        Ok(image) => Slot::Ready(Box::new(image)),
        Err(m) => Slot::Failed(m),
    }
}

/// What the turns of workers keep, when the window has just been moved in `first`: whatever waits
/// is wanted, what has been collected was collected before, and what lies outside the window is
/// the hint or was required, or is still being decoded.
spec fn tidy(r: Ring, first: Ring, load: spec_fn(usize) -> Result<Image, String>) -> bool {
    &&& r.wf()
    &&& r.covers()
    &&& r.hint == first.hint
    &&& forall|i: usize| #[trigger] r.needed.contains(i) ==> first.needed.contains(i)
    &&& forall|i: usize| #[trigger]
        r.slots.contains_key(i) ==> {
            ||| r.slots[i] is Decoding
            ||| r.slots[i] is Queued && r.wanted(i)
            ||| (r.slots[i] == loaded(load(i)) || (r.slots[i] is Collected && first.state(i)
                == State::Collected)) && first.keeps(r, i)
        }
}

impl Ring {
    /// `index` lies in the window of `later`, is the hint or was required.
    spec fn keeps(self, later: Ring, index: usize) -> bool {
        later.in_window(index) || self.hint == Some(index) || self.needed.contains(index)
    }
}

proof fn lemma_tidied(
    r: Ring,
    first: Ring,
    turn: Turn,
    load: spec_fn(usize) -> Result<Image, String>,
)
    requires
        tidy(r, first, load),
    ensures
        tidy(r.after(turn, load), first, load),
        r.after(turn, load).window() == r.window(),
{
    match turn {
        Turn::Claims => {
            lemma_claimed_frame(r);
            law_claiming_wedges_nothing(r);
            let s = r.claimed().0;
            assert forall|i: usize| s.in_window(i) == r.in_window(i) by {}
            assert forall|i: usize| s.wanted(i) == r.wanted(i) by {}
            assert forall|i: usize| #[trigger] s.slots.contains_key(i) implies {
                ||| s.slots[i] is Decoding
                ||| s.slots[i] is Queued && s.wanted(i)
                ||| (s.slots[i] == loaded(load(i)) || (s.slots[i] is Collected && first.state(i)
                    == State::Collected)) && first.keeps(s, i)
            } by {
                if r.claimed().1 != Some(i) {
                    assert(r.slots.contains_key(i));
                }
            }
        },
        Turn::Finishes(i) => {
            if r.state(i) == State::Decoding {
                let p = r.published(i, r.epoch, load(i));
                lemma_published(r, i, r.epoch, load(i));
                assert forall|j: usize| p.in_window(j) == r.in_window(j) by {}
                assert forall|j: usize| #[trigger] p.needed.contains(j) implies first.needed.contains(
                    j,
                ) by {
                    lemma_without(r.needed, i, j);
                }
                assert forall|j: usize| #[trigger] p.slots.contains_key(j) implies {
                    ||| p.slots[j] is Decoding
                    ||| p.slots[j] is Queued && p.wanted(j)
                    ||| (p.slots[j] == loaded(load(j)) || (p.slots[j] is Collected && first.state(j)
                        == State::Collected)) && first.keeps(p, j)
                } by {
                    assert(r.slots.contains_key(j));
                    lemma_without(r.needed, i, j);
                }
            }
        },
    }
}

proof fn lemma_worked(
    r: Ring,
    first: Ring,
    turns: Seq<Turn>,
    load: spec_fn(usize) -> Result<Image, String>,
)
    requires
        tidy(r, first, load),
    ensures
        tidy(r.worked(turns, load), first, load),
        r.worked(turns, load).window() == r.window(),
    decreases turns.len(),
{
    if turns.len() > 0 {
        lemma_worked(r, first, turns.drop_last(), load);
        lemma_tidied(r.worked(turns.drop_last(), load), first, turns.last(), load);
    }
}

/// After the window has moved, and once the workers have come to rest, the window is filled: each
/// of its images is ready if it could be loaded and failed if not, or has been collected before.
/// And there is nothing else but the hint and what was required. That holds however many workers
/// there are, in whatever order they claim and finish, and whatever was being decoded when the
/// window moved.
pub proof fn law_window_is_filled(
    r: Ring,
    centre: usize,
    turns: Seq<Turn>,
    load: spec_fn(usize) -> Result<Image, String>,
)
    requires
        r.sound(),
        r.holds_only(load),
        r.recentred(centre).worked(turns, load).at_rest(),
    ensures
        ({
            let d = r.recentred(centre).worked(turns, load);
            &&& d.window() == (Ring { centre, ..r }).window()
            &&& forall|i: usize| #[trigger] d.in_window(i) ==> d.slots.contains_key(i)
            &&& forall|i: usize| #[trigger]
                d.slots.contains_key(i) ==> {
                    &&& d.in_window(i) || r.hint == Some(i) || r.needed.contains(i)
                    &&& d.slots[i] == loaded(load(i)) || (d.slots[i] is Collected && r.state(i)
                        == State::Collected)
                }
        }),
{
    law_recentring_schedules_the_window(r, centre);
    let s = r.recentred(centre);
    assert(s.window() == (Ring { centre, ..r }).window());
    assert forall|i: usize| #[trigger] s.slots.contains_key(i) implies {
        ||| s.slots[i] is Decoding
        ||| s.slots[i] is Queued && s.wanted(i)
        ||| (s.slots[i] == loaded(load(i)) || (s.slots[i] is Collected && r.state(i)
            == State::Collected)) && r.keeps(s, i)
    } by {
        if r.slots.contains_key(i) {
            assert(r.slots[i] is Queued || r.slots[i] is Decoding || r.slots[i] is Collected
                || r.slots[i] == loaded(load(i)));
        }
    }
    lemma_worked(s, r, turns, load);
    let d = s.worked(turns, load);
    law_nearest_is_claimed_first(d);
    assert forall|i: usize| #[trigger] d.slots.contains_key(i) implies d.slots[i] !is Decoding
        && d.slots[i] !is Queued by {
        assert(d.state(i) != State::Decoding);
        if d.state(i) == State::Queued {
            let k = choose|k: int| 0 <= k < d.queue.len() && (#[trigger] d.queue[k]).index == i;
            assert(d.wanted(d.queue[k].index));
        }
    }
}

proof fn lemma_worked_on(
    r: Ring,
    first: Seq<Turn>,
    next: Seq<Turn>,
    load: spec_fn(usize) -> Result<Image, String>,
)
    ensures
        r.worked(first + next, load) == r.worked(first, load).worked(next, load),
    decreases next.len(),
{
    if next.len() == 0 {
        assert(first + next == first);
    } else {
        let all = first + next;
        assert(all.drop_last() == first + next.drop_last());
        assert(all.last() == next.last());
        lemma_worked_on(r, first, next.drop_last(), load);
    }
}

/// Every decode under way of an index below `n` can finish.
proof fn lemma_landed(r: Ring, n: nat, load: spec_fn(usize) -> Result<Image, String>) -> (turns: Seq<
    Turn,
>)
    requires
        r.wf(),
    ensures
        r.worked(turns, load).wf(),
        forall|i: usize| i < n ==> #[trigger] r.worked(turns, load).state(i) != State::Decoding,
    decreases n,
{
    if n == 0 {
        Seq::empty()
    } else {
        let before = lemma_landed(r, (n - 1) as nat, load);
        let s = r.worked(before, load);
        if n - 1 <= usize::MAX && s.state((n - 1) as usize) == State::Decoding {
            let i = (n - 1) as usize;
            let turns = before.push(Turn::Finishes(i));
            assert(turns.drop_last() == before);
            lemma_published(s, i, s.epoch, load(i));
            turns
        } else {
            before
        }
    }
}

/// Workers can do every job there is when none is being done.
proof fn lemma_exhausted(r: Ring, load: spec_fn(usize) -> Result<Image, String>) -> (turns: Seq<
    Turn,
>)
    requires
        r.wf(),
        forall|i: usize| #[trigger] r.state(i) != State::Decoding,
    ensures
        r.worked(turns, load).at_rest(),
    decreases r.queue.len(),
{
    match r.claimed().1 {
        None => Seq::empty(),
        Some(i) => {
            lemma_claimed_frame(r);
            law_claiming_wedges_nothing(r);
            let s = r.claimed().0;
            let two = seq![Turn::Claims, Turn::Finishes(i)];
            assert(two.drop_last() == seq![Turn::Claims]);
            assert(seq![Turn::Claims].drop_last() == Seq::<Turn>::empty());
            reveal_with_fuel(Ring::worked, 3);
            assert(r.worked(seq![Turn::Claims], load) == s);
            assert(s.state(i) == State::Decoding);
            lemma_published(s, i, s.epoch, load(i));
            let p = s.published(i, s.epoch, load(i));
            assert(r.worked(two, load) == p);
            assert forall|j: usize| #[trigger] p.state(j) != State::Decoding by {
                assert(r.state(j) != State::Decoding);
            }
            let rest = lemma_exhausted(p, load);
            lemma_worked_on(r, two, rest, load);
            two + rest
        },
    }
}

/// The workers can always come to rest, whatever is waiting and whatever is being decoded.
pub proof fn law_workers_come_to_rest(
    r: Ring,
    load: spec_fn(usize) -> Result<Image, String>,
) -> (turns: Seq<Turn>)
    requires
        r.wf(),
    ensures
        r.worked(turns, load).at_rest(),
{
    let first = lemma_landed(r, (usize::MAX + 1) as nat, load);
    let s = r.worked(first, load);
    let rest = lemma_exhausted(s, load);
    lemma_worked_on(r, first, rest, load);
    first + rest
}

/// What is required outside the window is handed out by a claim, and what a worker makes of it
/// is kept although the window does not want it.
pub proof fn law_required_is_decoded_anywhere(
    r: Ring,
    index: usize,
    centre: usize,
    image: Image,
)
    requires
        r.wf(),
        index < r.paths.len(),
        r.state(index) != State::Ready,
    ensures
        ({
            let q = r.required(index);
            &&& q.state(index) == State::Queued || q.state(index) == State::Decoding
            &&& q.state(index) == State::Queued ==> has_job(q.queue, index)
            &&& q.wanted(index)
            &&& q.claimed().1 is None ==> q.state(index) == State::Decoding
            &&& q.state(index) == State::Decoding ==> q.published(
                index,
                q.epoch,
                Ok(image),
            ).state(index) == State::Ready
            &&& !r.in_window(index) ==> {
                let m = q.recentred(centre);
                &&& m.state(index) == q.state(index)
                &&& m.wanted(index)
                &&& m.state(index) == State::Queued ==> has_job(m.queue, index)
            }
        }),
{
    lemma_required(r, index);
    let q = r.required(index);
    assert(q.in_window(index) == r.in_window(index));
    table::lemma_pushed(r.needed, index);
    assert(q.wanted(index));
    law_nearest_is_claimed_first(q);
    if q.state(index) == State::Queued {
        let k = choose|k: int| 0 <= k < q.queue.len() && (#[trigger] q.queue[k]).index == index;
        assert(q.wanted(q.queue[k].index));
    }
    law_recentring_schedules_the_window(q, centre);
    let m = q.recentred(centre);
    if !r.in_window(index) {
        assert(q.needed.contains(index));
        assert(m.wanted(index));
        assert(m.state(index) == q.state(index));
    }
}

/// Workers leave alone what has been decoded.
proof fn lemma_drained_keeps(
    r: Ring,
    load: spec_fn(usize) -> Result<Image, String>,
    index: usize,
)
    requires
        r.wf(),
        r.slots.contains_key(index),
        r.slots[index] is Ready || r.slots[index] is Failed,
    ensures
        r.drained(load).slots.contains_key(index),
        r.drained(load).slots[index] == r.slots[index],
    decreases r.queue.len(),
{
    lemma_claimed_frame(r);
    law_claiming_wedges_nothing(r);
    let s = r.claimed().0;
    if let Some(i) = r.claimed().1 {
        assert(r.state(index) != State::Queued);
        lemma_published(s, i, s.epoch, load(i));
        let p = s.published(i, s.epoch, load(i));
        assert(p.slots[index] == r.slots[index]);
        lemma_drained_keeps(p, load, index);
    }
}

/// Whatever waits and is wanted is loaded before the workers come to rest, or fails to be.
pub proof fn law_wanted_is_loaded_in_the_end(
    r: Ring,
    load: spec_fn(usize) -> Result<Image, String>,
    index: usize,
)
    requires
        r.wf(),
        r.state(index) == State::Queued,
        r.wanted(index),
    ensures
        r.drained(load).slots.contains_key(index),
        r.drained(load).slots[index] == loaded(load(index)),
    decreases r.queue.len(),
{
    lemma_claimed_frame(r);
    law_claiming_wedges_nothing(r);
    let s = r.claimed().0;
    match r.claimed().1 {
        Some(i) => {
            lemma_published(s, i, s.epoch, load(i));
            let p = s.published(i, s.epoch, load(i));
            assert(s.state(i) == State::Decoding);
            assert(s.in_window(i) == r.in_window(i));
            assert(s.wanted(i));
            assert(p.slots == s.slots.insert(i, loaded(load(i))));
            if i == index {
                lemma_drained_keeps(p, load, index);
            } else {
                lemma_without(s.needed, i, index);
                assert(p.in_window(index) == r.in_window(index));
                assert(p.state(index) == r.state(index));
                law_wanted_is_loaded_in_the_end(p, load, index);
            }
        },
        None => {
            law_nearest_is_claimed_first(r);
            let k = choose|k: int| 0 <= k < r.queue.len() && (#[trigger] r.queue[k]).index == index;
            assert(r.wanted(r.queue[k].index));
        },
    }
}

/// What is required is loaded again before the workers come to rest, wherever the window is,
/// even if it was collected or had failed.
pub proof fn law_required_is_loaded_in_the_end(
    r: Ring,
    load: spec_fn(usize) -> Result<Image, String>,
    index: usize,
)
    requires
        r.wf(),
        index < r.paths.len(),
        r.state(index) != State::Ready,
        r.state(index) != State::Decoding,
    ensures
        r.required(index).drained(load).slots.contains_key(index),
        r.required(index).drained(load).slots[index] == loaded(load(index)),
{
    lemma_required(r, index);
    let q = r.required(index);
    assert(q.in_window(index) == r.in_window(index));
    table::lemma_pushed(r.needed, index);
    law_wanted_is_loaded_in_the_end(q, load, index);
}

/// Pixels are handed over exactly once: after a collection nothing is left to collect, and the
/// ring holds no pixels.
pub proof fn law_pixels_are_handed_over_once(r: Ring)
    ensures
        in_state(r.collected_slots(), State::Ready).is_empty(),
        (Ring { slots: r.collected_slots(), ..r }).collected_slots() == r.collected_slots(),
{
    assert(in_state(r.collected_slots(), State::Ready) =~= Set::<usize>::empty());
    assert((Ring { slots: r.collected_slots(), ..r }).collected_slots() =~= r.collected_slots());
}

/// A failed index is not tried again by moving the window, and an image that is there is not
/// decoded again: only what is queued has a job.
pub proof fn law_only_queued_slots_have_jobs(r: Ring, centre: usize)
    requires
        r.paths.len() <= usize::MAX,
    ensures
        forall|k: int|
            0 <= k < r.recentred(centre).queue.len() ==> r.recentred(centre).state(
                (#[trigger] r.recentred(centre).queue[k]).index,
            ) == State::Queued,
        forall|i: usize|
            r.recentred(centre).in_window(i) && r.slots.contains_key(i) ==> #[trigger] r.recentred(
                centre,
            ).state(i) == r.state(i),
{
    let s = r.recentred(centre);
    if let Some((lo, hi)) = s.window() {
        lemma_jobs_sound(s.slots, lo, hi + 1, centre);
        let extra = exempted(s.hint, s.needed);
        lemma_needed_jobs_sound(s.slots, lo, hi, extra);
        let inside = jobs(s.slots, lo, hi + 1, centre);
        let outside = needed_jobs(s.slots, lo, hi, extra);
        assert forall|k: int| 0 <= k < s.queue.len() implies s.state((#[trigger] s.queue[k]).index)
            == State::Queued by {
            if k < inside.len() {
                assert(s.queue[k] == inside[k]);
            } else {
                assert(s.queue[k] == outside[k - inside.len()]);
            }
        }
    }
}

proof fn lemma_jobs_sound(slots: Map<usize, Slot>, lo: int, n: int, centre: usize)
    requires
        0 <= lo,
        n <= usize::MAX + 1,
    ensures
        forall|k: int|
            0 <= k < jobs(slots, lo, n, centre).len() ==> slots[(#[trigger] jobs(
                slots,
                lo,
                n,
                centre,
            )[k]).index] is Queued && lo <= jobs(slots, lo, n, centre)[k].index < n,
    decreases n - lo,
{
    if n > lo {
        lemma_jobs_sound(slots, lo, n - 1, centre);
        let q = jobs(slots, lo, n, centre);
        let init = jobs(slots, lo, n - 1, centre);
        assert forall|k: int| 0 <= k < q.len() implies slots[(#[trigger] q[k]).index] is Queued
            && lo <= q[k].index < n by {
            if k < init.len() {
                assert(q[k] == init[k]);
            }
        }
    }
}

proof fn lemma_needed_jobs_sound(slots: Map<usize, Slot>, lo: int, hi: int, needed: Seq<usize>)
    ensures
        forall|k: int|
            0 <= k < needed_jobs(slots, lo, hi, needed).len() ==> is_queued(
                slots,
                (#[trigger] needed_jobs(slots, lo, hi, needed)[k]).index,
            ),
    decreases needed.len(),
{
    if needed.len() > 0 {
        lemma_needed_jobs_sound(slots, lo, hi, needed.drop_last());
        let q = needed_jobs(slots, lo, hi, needed);
        let init = needed_jobs(slots, lo, hi, needed.drop_last());
        assert forall|k: int| 0 <= k < q.len() implies is_queued(
            slots,
            (#[trigger] q[k]).index,
        ) by {
            if k < init.len() {
                assert(q[k] == init[k]);
            }
        }
    }
}

/// A decode that was begun before the list of paths was replaced never touches a slot.
pub proof fn law_stale_decodes_discard_themselves(
    r: Ring,
    paths: Seq<Seq<char>>,
    centre: usize,
    index: usize,
    result: Result<Image, String>,
)
    ensures
        ({
            let s = r.renewed(paths, centre);
            s.published(index, r.epoch, result).slots == s.slots
        }),
{
}

/// A hint does not move the window. It is queued at distance 0, unless it is known already, and
/// it survives every move of the window until it is replaced or cleared: it keeps its slot, and
/// its job while it waits.
pub proof fn law_hint_is_kept_warm(r: Ring, index: usize, centre: usize)
    requires
        r.wf(),
        index < r.paths.len(),
        r.hint != Some(index),
    ensures
        ({
            let h = r.hinted(index);
            let m = h.recentred(centre);
            &&& h.window() == r.window()
            &&& h.hint == Some(index)
            &&& h.slots.contains_key(index)
            &&& h.state(index) == State::Queued ==> has_job(h.queue, index)
            &&& r.state(index) == State::Absent ==> h.state(index) == State::Queued
                && h.queue.last() == (Job { distance: 0, index })
            &&& m.hint == Some(index)
            &&& m.slots.contains_key(index)
            &&& m.slots[index] == h.slots[index]
            &&& m.state(index) == State::Queued ==> has_job(m.queue, index)
        }),
{
    lemma_hinted(r, index);
    let h = r.hinted(index);
    assert(h.wanted(index));
    assert(h.state(index) == State::Queued ==> has_job(h.queue, index));
    law_recentring_schedules_the_window(h, centre);
    let m = h.recentred(centre);
    assert(m.wanted(index));
    assert(m.state(index) == State::Queued ==> has_job(m.queue, index));
}

impl Ring {
    /// What is held outside the window is the hint, was required, or is being decoded right now.
    pub open spec fn bounded(self) -> bool {
        forall|i: usize| #[trigger]
            self.slots.contains_key(i) ==> self.in_window(i) || self.state(i) == State::Decoding
                || self.hint == Some(i) || self.needed.contains(i)
    }
}

/// Only one index is ever kept warm outside the window unasked: sweeping the pointer over the
/// rows does not add up, and neither does anything that a worker or the renderer does, but for
/// the images that were required.
pub proof fn law_only_the_hint_lies_outside(
    r: Ring,
    index: usize,
    epoch: u64,
    result: Result<Image, String>,
    image: Box<Image>,
    centre: usize,
)
    requires
        r.bounded(),
    ensures
        r.hinted(index).bounded(),
        !r.needed.contains(index) ==> r.published(index, epoch, result).bounded(),
        r.returned(index, image).bounded(),
        (Ring { slots: r.collected_slots(), ..r }).bounded(),
        r.recentred(centre).bounded(),
        r.required(index).bounded(),
{
    let h = r.hinted(index);
    assert forall|i: usize| #[trigger] h.slots.contains_key(i) implies h.in_window(i) || h.state(i)
        == State::Decoding || h.hint == Some(i) || h.needed.contains(i) by {
        assert(h.in_window(i) == r.in_window(i));
        if i != index {
            assert(r.slots.contains_key(i));
            assert(h.state(i) == r.state(i));
        }
    }
    let p = r.published(index, epoch, result);
    if !r.needed.contains(index) {
        assert forall|i: usize| #[trigger] p.slots.contains_key(i) implies p.in_window(i)
            || p.state(i) == State::Decoding || p.hint == Some(i) || p.needed.contains(i) by {
            assert(p.in_window(i) == r.in_window(i));
            assert(r.slots.contains_key(i));
            lemma_without(r.needed, index, i);
            if i != index {
                assert(p.state(i) == r.state(i));
            }
        }
    }
    let b = r.returned(index, image);
    assert forall|i: usize| #[trigger] b.slots.contains_key(i) implies b.in_window(i) || b.state(i)
        == State::Decoding || b.hint == Some(i) || b.needed.contains(i) by {
        assert(b.in_window(i) == r.in_window(i));
        assert(r.slots.contains_key(i));
        if i != index {
            assert(b.state(i) == r.state(i));
        }
    }
    let t = Ring { slots: r.collected_slots(), ..r };
    assert forall|i: usize| #[trigger] t.slots.contains_key(i) implies t.in_window(i) || t.state(i)
        == State::Decoding || t.hint == Some(i) || t.needed.contains(i) by {
        assert(t.in_window(i) == r.in_window(i));
        assert(r.slots.contains_key(i));
    }
    let q = r.required(index);
    table::lemma_pushed(r.needed, index);
    assert forall|i: usize| #[trigger] q.slots.contains_key(i) implies q.in_window(i) || q.state(i)
        == State::Decoding || q.hint == Some(i) || q.needed.contains(i) by {
        assert(q.in_window(i) == r.in_window(i));
        if i != index {
            assert(r.slots.contains_key(i));
            assert(q.state(i) == r.state(i));
        }
    }
}

/// No index is decoded by two workers at once: the window leaving and returning keeps the marker
/// of a decode in flight, and what carries it is not handed out again.
pub proof fn law_decodes_are_not_doubled(r: Ring, centre: usize, index: usize)
    requires
        r.paths.len() > 0,
        r.state(index) == State::Decoding,
    ensures
        r.recentred(centre).state(index) == State::Decoding,
        r.claimed().1 != Some(index),
{
    lemma_claimed_was_queued(r);
}

proof fn lemma_claimed_was_queued(r: Ring)
    ensures
        r.claimed().1 matches Some(i) ==> r.state(i) == State::Queued,
    decreases r.queue.len(),
{
    if r.queue.len() > 0 {
        lemma_nearest(r.queue);
        let k = nearest(r.queue);
        let index = r.queue[k].index;
        let rest = Ring { queue: r.queue.remove(k), ..r };
        if !r.wanted(index) {
            lemma_claimed_was_queued(
                Ring {
                    stats: Stats { skipped: bumped(r.stats.skipped), ..r.stats },
                    ..rest
                },
            );
        } else if r.state(index) != State::Queued {
            lemma_claimed_was_queued(rest);
        }
    }
}

/// What lies outside the window after a move is being decoded, waits because it was required, or
/// is the hint: the pixels held are bounded by the window and one hint.
pub proof fn law_memory_is_bounded(r: Ring, centre: usize)
    ensures
        ({
            let s = r.recentred(centre);
            &&& forall|i: usize| #[trigger]
                s.slots.contains_key(i) ==> s.in_window(i) || s.state(i) == State::Decoding
                    || s.hint == Some(i) || (s.state(i) == State::Queued && s.needed.contains(i))
            &&& in_state(s.slots, State::Ready).len() <= 2 * r.radius + 2
        }),
{
    let s = r.recentred(centre);
    let ready = in_state(s.slots, State::Ready);
    match s.window() {
        None => {
            assert(ready =~= Set::<usize>::empty());
        },
        Some((lo, hi)) => {
            let inside = ready.filter(|i: usize| lo <= i <= hi);
            lemma_range_len(inside, lo, hi);
            match s.hint {
                Some(h) => {
                    assert(ready.subset_of(inside.insert(h)));
                    vstd::set_lib::lemma_len_subset(ready, inside.insert(h));
                },
                None => {
                    assert(ready =~= inside);
                },
            }
        },
    }
}

proof fn lemma_range_len(s: Set<usize>, lo: int, hi: int)
    requires
        forall|i: usize| s.contains(i) ==> lo <= i <= hi,
        lo <= hi + 1,
    ensures
        s.finite(),
        s.len() <= hi - lo + 1,
    decreases hi - lo + 1,
{
    if lo == hi + 1 {
        assert(s =~= Set::<usize>::empty());
    } else {
        let top = hi as usize;
        if 0 <= hi <= usize::MAX {
            lemma_range_len(s.remove(top), lo, hi - 1);
            if s.contains(top) {
                assert(s =~= s.remove(top).insert(top));
            } else {
                assert(s =~= s.remove(top));
            }
        } else {
            lemma_range_len(s, lo, hi - 1);
        }
    }
}

/// Of `n` images, image `i` lies no further than `radius` from the one at `centre`, or from the
/// last where there are fewer.
pub open spec fn within_reach(n: nat, centre: usize, radius: usize, i: usize) -> bool {
    let c = if centre < n {
        centre as int
    } else {
        n - 1
    };
    i < n && i <= c + radius && c <= i + radius
}

/// The window holds the images within reach of its centre, and no others.
pub proof fn law_window_is_what_lies_within_reach(r: Ring, i: usize)
    ensures
        r.in_window(i) <==> within_reach(r.paths.len(), r.centre, r.radius, i),
        r.window() is None <==> r.paths.len() == 0,
        r.window() matches Some((lo, hi)) ==> {
            &&& lo <= i <= hi <==> within_reach(r.paths.len(), r.centre, r.radius, i)
            &&& 0 <= lo <= hi < r.paths.len()
        },
        r.wanted(i) <==> within_reach(r.paths.len(), r.centre, r.radius, i) || (i < r.paths.len()
            && (r.hint == Some(i) || r.needed.contains(i))),
        r.state(i) == State::Absent <==> !r.slots.contains_key(i),
        r.slots.contains_key(i) ==> match r.slots[i] {
            Slot::Queued => r.state(i) == State::Queued,
            Slot::Decoding => r.state(i) == State::Decoding,
            Slot::Ready(_) => r.state(i) == State::Ready,
            Slot::Collected => r.state(i) == State::Collected,
            Slot::Failed(_) => r.state(i) == State::Failed,
        },
{
}

/// Moving the window keeps every slot that it still covers as it was, queues what it newly
/// covers, and drops what it leaves: but for what is being decoded, the hint, and what was
/// required and still waits.
pub proof fn law_moving_the_window_keeps_what_it_covers(r: Ring, centre: usize, i: usize)
    requires
        r.paths.len() > 0,
    ensures
        ({
            let s = r.recentred(centre);
            let covered = within_reach(r.paths.len(), centre, r.radius, i);
            let had = r.slots.contains_key(i);
            &&& s.centre == centre
            &&& s.radius == r.radius
            &&& s.paths == r.paths
            &&& s.hint == r.hint
            &&& s.needed == r.needed
            &&& s.epoch == r.epoch
            &&& s.stats == r.stats
            &&& covered ==> s.slots.contains_key(i)
            &&& had && s.slots.contains_key(i) ==> s.slots[i] == r.slots[i]
            &&& !had && covered ==> s.slots[i] is Queued
            &&& !had && !covered ==> !s.slots.contains_key(i)
            &&& had && !covered ==> (s.slots.contains_key(i) <==> r.slots[i] is Decoding || r.hint
                == Some(i) || (r.slots[i] is Queued && r.needed.contains(i)))
        }),
{
}

proof fn lemma_jobs_tell_distances(slots: Map<usize, Slot>, lo: int, n: int, centre: usize, k: int)
    requires
        0 <= lo,
        n <= usize::MAX,
        0 <= k < jobs(slots, lo, n, centre).len(),
    ensures
        ({
            let job = jobs(slots, lo, n, centre)[k];
            &&& lo <= job.index < n
            &&& job.index >= centre ==> job.distance == job.index - centre
            &&& job.index < centre ==> job.distance == centre - job.index
        }),
    decreases n - lo,
{
    if n > lo {
        let init = jobs(slots, lo, n - 1, centre);
        if k < init.len() {
            lemma_jobs_tell_distances(slots, lo, n - 1, centre, k);
            assert(jobs(slots, lo, n, centre)[k] == init[k]);
        }
    }
}

proof fn lemma_needed_jobs_lie_outside(
    slots: Map<usize, Slot>,
    lo: int,
    hi: int,
    needed: Seq<usize>,
    k: int,
)
    requires
        0 <= k < needed_jobs(slots, lo, hi, needed).len(),
    ensures
        !(lo <= needed_jobs(slots, lo, hi, needed)[k].index <= hi),
    decreases needed.len(),
{
    if needed.len() > 0 {
        let init = needed_jobs(slots, lo, hi, needed.drop_last());
        if k < init.len() {
            lemma_needed_jobs_lie_outside(slots, lo, hi, needed.drop_last(), k);
            assert(needed_jobs(slots, lo, hi, needed)[k] == init[k]);
        }
    }
}

proof fn lemma_claimed_slot(r: Ring)
    ensures
        r.claimed().1 matches Some(i) ==> r.wanted(i) && r.claimed().0.slots == r.slots.insert(
            i,
            Slot::Decoding,
        ),
        r.claimed().1 is None ==> r.claimed().0.slots == r.slots,
    decreases r.queue.len(),
{
    if r.queue.len() > 0 {
        lemma_nearest(r.queue);
        let k = nearest(r.queue);
        let index = r.queue[k].index;
        let rest = Ring { queue: r.queue.remove(k), ..r };
        if !r.wanted(index) {
            let next = Ring {
                stats: Stats { skipped: bumped(r.stats.skipped), ..r.stats },
                ..rest
            };
            lemma_claimed_slot(next);
            assert(forall|i: usize| next.wanted(i) == r.wanted(i));
        } else if r.state(index) != State::Queued {
            lemma_claimed_slot(rest);
            assert(forall|i: usize| rest.wanted(i) == r.wanted(i));
        }
    }
}

/// After the window has moved, the workers decode what is nearest to its centre first, of two
/// equally near the one ahead; each image is handed to one worker only, and one is handed out as
/// long as any is waiting.
pub proof fn law_nearest_to_the_centre_comes_first(r: Ring, centre: usize)
    requires
        r.sound(),
        centre < r.paths.len() <= usize::MAX,
    ensures
        ({
            let s = r.recentred(centre);
            let (t, taken) = s.claimed();
            &&& forall|j: usize|
                within_reach(r.paths.len(), centre, r.radius, j) && #[trigger] s.slots.contains_key(j)
                    && s.slots[j] is Queued ==> taken is Some
            &&& taken matches Some(i) ==> {
                &&& s.slots.contains_key(i) && s.slots[i] is Queued
                &&& t.slots == s.slots.insert(i, Slot::Decoding)
                &&& t.paths == r.paths
                &&& t.centre == centre
                &&& within_reach(r.paths.len(), centre, r.radius, i) || r.hint == Some(i)
                    || r.needed.contains(i)
                &&& within_reach(r.paths.len(), centre, r.radius, i) ==> forall|j: usize|
                    within_reach(r.paths.len(), centre, r.radius, j)
                        && #[trigger] s.slots.contains_key(j) && s.slots[j] is Queued ==> {
                        let di = if i < centre {
                            centre - i
                        } else {
                            i - centre
                        };
                        let dj = if j < centre {
                            centre - j
                        } else {
                            j - centre
                        };
                        di < dj || (di == dj && i <= j)
                    }
            }
        }),
{
    let s = r.recentred(centre);
    let (t, taken) = s.claimed();
    law_recentring_schedules_the_window(r, centre);
    law_nearest_is_claimed_first(s);
    lemma_claimed_was_queued(s);
    lemma_claimed_slot(s);
    lemma_claimed_frame(s);
    let (lo, hi) = s.window()->0;
    let inside = jobs(s.slots, lo, hi + 1, centre);
    let outside = needed_jobs(s.slots, lo, hi, exempted(s.hint, s.needed));
    assert forall|j: usize|
        within_reach(r.paths.len(), centre, r.radius, j) && #[trigger] s.slots.contains_key(j)
            && s.slots[j] is Queued implies taken is Some by {
        assert(s.state(j) == State::Queued && s.wanted(j));
        assert(has_job(s.queue, j));
    }
    if let Some(i) = taken {
        let k = choose|k: int|
            {
                &&& 0 <= k < s.queue.len()
                &&& (#[trigger] s.queue[k]).index == i
                &&& forall|n: int|
                    0 <= n < s.queue.len() && s.wanted((#[trigger] s.queue[n]).index) && s.state(
                        s.queue[n].index,
                    ) == State::Queued ==> !s.queue[n].nearer(s.queue[k])
            };
        if within_reach(r.paths.len(), centre, r.radius, i) {
            if k >= inside.len() {
                lemma_needed_jobs_lie_outside(
                    s.slots,
                    lo,
                    hi,
                    exempted(s.hint, s.needed),
                    k - inside.len(),
                );
            }
            assert(s.queue[k] == inside[k]);
            lemma_jobs_tell_distances(s.slots, lo, hi + 1, centre, k);
            assert forall|j: usize|
                within_reach(r.paths.len(), centre, r.radius, j) && #[trigger] s.slots.contains_key(j)
                    && s.slots[j] is Queued implies ({
                let di = if i < centre {
                    centre - i
                } else {
                    i - centre
                };
                let dj = if j < centre {
                    centre - j
                } else {
                    j - centre
                };
                di < dj || (di == dj && i <= j)
            }) by {
                assert(s.state(j) == State::Queued && s.wanted(j));
                assert(has_job(s.queue, j));
                lemma_jobs_complete(s.slots, lo, hi + 1, centre, j);
                let n = choose|n: int| 0 <= n < inside.len() && (#[trigger] inside[n]).index == j;
                lemma_jobs_tell_distances(s.slots, lo, hi + 1, centre, n);
                assert(s.queue[n] == inside[n]);
            }
        }
    }
}

/// A finished decode is kept if the image is still being waited for: its pixels, or what went
/// wrong. It is dropped if the list of paths has changed meanwhile or nothing wants the image any
/// more; and no other slot is touched.
pub proof fn law_finished_decode_is_kept_if_wanted(
    r: Ring,
    index: usize,
    epoch: u64,
    result: Result<Image, String>,
    j: usize,
)
    ensures
        ({
            let s = r.published(index, epoch, result);
            let waited = epoch == r.epoch && r.slots.contains_key(index) && r.slots[index] is Decoding;
            let wanted = within_reach(r.paths.len(), r.centre, r.radius, index) || (index
                < r.paths.len() && (r.hint == Some(index) || r.needed.contains(index)));
            &&& j != index ==> (s.slots.contains_key(j) <==> r.slots.contains_key(j)) && (
            r.slots.contains_key(j) ==> s.slots[j] == r.slots[j])
            &&& waited && wanted ==> s.slots.contains_key(index) && match result {
                Ok(image) => s.slots[index] == Slot::Ready(Box::new(image)),
                Err(m) => s.slots[index] == Slot::Failed(m),
            }
            &&& waited && wanted ==> !s.needed.contains(index)
            &&& waited && !wanted ==> !s.slots.contains_key(index)
            &&& !waited ==> s.slots == r.slots
            &&& !(waited && wanted) ==> s.needed == r.needed
            &&& s.paths == r.paths && s.centre == r.centre && s.radius == r.radius && s.hint
                == r.hint && s.epoch == r.epoch && s.queue == r.queue
            &&& waited && wanted && result is Ok && r.stats.decoded < usize::MAX ==> s.stats.decoded
                == r.stats.decoded + 1
            &&& result is Err && r.stats.failed < usize::MAX ==> s.stats.failed == r.stats.failed
                + 1
            &&& !(waited && wanted) && r.stats.discarded < usize::MAX ==> s.stats.discarded
                == r.stats.discarded + 1
        }),
{
    lemma_without(r.needed, index, index);
}

/// The image under the pointer is decoded ahead of the rest: it has a slot, and is the hint. The
/// hint before it goes, unless the window covers it, it was required, or it is being decoded.
pub proof fn law_only_the_last_hint_is_kept(r: Ring, index: usize, old: usize)
    requires
        index < r.paths.len(),
        r.hint != Some(index),
    ensures
        ({
            let s = r.hinted(index);
            &&& s.hint == Some(index)
            &&& s.slots.contains_key(index)
            &&& r.slots.contains_key(index) && !(r.slots[index] is Queued) ==> s.slots[index]
                == r.slots[index]
            &&& !r.slots.contains_key(index) ==> s.slots[index] is Queued && has_job(
                s.queue,
                index,
            )
            &&& r.hint == Some(old) && r.slots.contains_key(old) ==> (s.slots.contains_key(old)
                <==> within_reach(r.paths.len(), r.centre, r.radius, old) || r.needed.contains(old)
                || r.slots[old] is Decoding)
            &&& old != index && r.hint != Some(old) ==> (s.slots.contains_key(old)
                <==> r.slots.contains_key(old)) && (r.slots.contains_key(old) ==> s.slots[old]
                == r.slots[old])
            &&& s.paths == r.paths && s.centre == r.centre && s.radius == r.radius && s.needed
                == r.needed
        }),
{
    lemma_pushed_job(Ring { slots: r.unhinted_slots(), ..r }.queue, Job { distance: 0, index }, index);
}

/// What is required is decoded again wherever the window is, unless its pixels are there: it is
/// waiting or being decoded, and outside the window it is remembered until it is done.
pub proof fn law_required_image_is_on_its_way(r: Ring, index: usize, j: usize)
    ensures
        ({
            let s = r.required(index);
            let there = r.slots.contains_key(index);
            &&& index >= r.paths.len() ==> s == r
            &&& there && r.slots[index] is Ready ==> s == r
            &&& index < r.paths.len() && !(there && r.slots[index] is Ready) ==> {
                &&& s.slots.contains_key(index)
                &&& there && r.slots[index] is Decoding ==> s.slots[index] is Decoding
                &&& !(there && r.slots[index] is Decoding) ==> s.slots[index] is Queued
                &&& !there || r.slots[index] is Collected || r.slots[index] is Failed ==> has_job(
                    s.queue,
                    index,
                )
                &&& within_reach(r.paths.len(), r.centre, r.radius, index) || s.needed.contains(
                    index,
                )
            }
            &&& j != index ==> (s.slots.contains_key(j) <==> r.slots.contains_key(j)) && (
            r.slots.contains_key(j) ==> s.slots[j] == r.slots[j])
            &&& s.paths == r.paths && s.centre == r.centre && s.radius == r.radius && s.hint
                == r.hint
        }),
{
    lemma_pushed_job(r.queue, Job { distance: 0, index }, index);
    let t = r.needed.push(index);
    assert(t[t.len() - 1] == index);
}

/// The renderer takes every image that is ready, and its slot remembers only that; an image that
/// is handed back is ready again, if it is still wanted.
pub proof fn law_collected_images_can_be_handed_back(r: Ring, i: usize, image: Box<Image>)
    ensures
        ({
            let c = r.collected_slots();
            &&& c.contains_key(i) <==> r.slots.contains_key(i)
            &&& r.slots.contains_key(i) && r.slots[i] is Ready ==> c[i] is Collected
            &&& r.slots.contains_key(i) && !(r.slots[i] is Ready) ==> c[i] == r.slots[i]
        }),
        ({
            let s = r.returned(i, image);
            let wanted = within_reach(r.paths.len(), r.centre, r.radius, i) || (i < r.paths.len()
                && (r.hint == Some(i) || r.needed.contains(i)));
            &&& wanted && r.slots.contains_key(i) && r.slots[i] is Collected ==> s == (Ring {
                slots: r.slots.insert(i, Slot::Ready(image)),
                ..r
            })
            &&& !(wanted && r.slots.contains_key(i) && r.slots[i] is Collected) ==> s == r
        }),
{
}

/// Another list of paths starts afresh around its centre: nothing of the old list is left, and a
/// decode begun under it is recognised.
pub proof fn law_new_list_starts_afresh(r: Ring, paths: Seq<Seq<char>>, centre: usize, i: usize)
    ensures
        ({
            let s = r.renewed(paths, centre);
            &&& s.paths == paths
            &&& s.centre == centre
            &&& s.radius == r.radius
            &&& s.epoch != r.epoch
            &&& s.needed.len() == 0
            &&& s.slots.contains_key(i) <==> within_reach(paths.len(), centre, r.radius, i)
            &&& s.slots.contains_key(i) ==> s.slots[i] is Queued
        }),
{
}

} // verus!

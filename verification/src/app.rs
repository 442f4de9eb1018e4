//! Application state: what is selected, how the image is laid out, what happens on input.
//! Holds no GPU or windowing types, and neither reads the disk nor the clock: times come in as
//! nanoseconds since some fixed start, and what has to be read or drawn goes out as
//! [`Effects`].
//!
//! The renderer and event loop are thin shells that call into this.
use std::collections::HashMap;
use vstd::prelude::*;
use crate::icc;
use crate::icc::Verdict;
use crate::path;
use crate::prefetch::{Prefetcher, Ring, State};
use crate::scan;
use crate::scan::{DirFacts, DirNode, FileMeta, Group, GroupFacts, MetaStore};
use crate::text;
use crate::tiff::ColorSpace;
use crate::trash;
use crate::trash::{Bin, Call, DeletionFacts, History};
use crate::tree;
use crate::view;
use crate::view::{FitMode, Orientation};

verus! {

broadcast use vstd::std_specs::hash::group_hash_axioms;

/// Prefetch radius. Ten images to either side are comfortable: about 2.1 GB of video memory at
/// full resolution.
pub const DEFAULT_RADIUS: usize = 10;

/// Undo depth. Deep enough to recover from a bad run of culling, bounded so a long session
/// cannot grow without limit.
pub const UNDO_LIMIT: usize = 64;

/// Navigations closer together than this mean a key is being held rather than tapped.
pub const FAST_NAV: u64 = 90_000_000;

/// How long navigation must be quiet before the full window is restored.
pub const SETTLE: u64 = 140_000_000;

/// Window radius while scrolling fast. Just enough to cover the image on screen and its
/// immediate neighbours; anything more is decoded and discarded unseen.
pub const FAST_RADIUS: usize = 1;

/// While a key is held, how often the decode target is allowed to move.
///
/// Key repeat can exceed 100/s, but a 25 MP image takes ~170 ms to decode. Chasing every event
/// means nothing ever finishes. Retargeting about four times a second lets a few images
/// actually load and appear during the hold.
pub const PREFETCH_THROTTLE: u64 = 250_000_000;

/// Facts about the image on screen, cached so the UI need not re-inspect pixels.
#[derive(Clone, Copy, Debug)]
pub struct Shown {
    pub index: usize,
    /// Stored pixel dimensions, before orientation.
    pub stored: (u32, u32),
    pub orientation: Orientation,
    /// Size after orientation, which is what the view transform works in.
    pub displayed: (u32, u32),
    pub colour: Verdict,
}

/// The mathematical content of a [`Shown`].
pub struct ShownFacts {
    pub index: usize,
    pub stored: (u32, u32),
    pub orientation: u16,
    pub displayed: (u32, u32),
    pub colour: Verdict,
}

impl View for Shown {
    type V = ShownFacts;

    open spec fn view(&self) -> ShownFacts {
        ShownFacts {
            index: self.index,
            stored: self.stored,
            orientation: self.orientation.spec_value(),
            displayed: self.displayed,
            colour: self.colour,
        }
    }
}

/// What becomes of zoom and pan, for an image of the given displayed size.
#[derive(Clone, Copy, PartialEq, Eq, Debug, Structural)]
pub enum Layout {
    /// Nothing changes.
    Keep,
    /// Fit the image to the window, centred.
    Fit { width: u32, height: u32 },
    /// Keep zoom and pan as far as the image allows.
    Clamp { width: u32, height: u32 },
    /// One image pixel per screen pixel, centred, as far as the image allows.
    ActualSize { width: u32, height: u32 },
}

/// What the event loop should do after handling an input.
#[derive(Clone, Copy, PartialEq, Eq, Debug, Structural)]
pub struct Effects {
    /// The view changed; a redraw is needed.
    pub redraw: bool,
    /// The selected index changed; the renderer should bind a different texture.
    pub image_changed: bool,
    /// Files were removed; the sidebar must be rebuilt.
    pub tree_changed: bool,
    /// How the image is to be laid out.
    pub layout: Layout,
    /// The tree has to be read again, see [`App::rescan_root`] and [`App::rescan`].
    pub rescan: bool,
    /// Every file has to be stat'ed in the background, see [`App::meta_paths`].
    pub stat_files: bool,
}

impl Effects {
    /// Nothing to do.
    pub open spec fn nothing() -> Effects {
        Effects {
            redraw: false,
            image_changed: false,
            tree_changed: false,
            layout: Layout::Keep,
            rescan: false,
            stat_files: false,
        }
    }

    /// A redraw.
    pub open spec fn drawn(layout: Layout) -> Effects {
        Effects { redraw: true, layout, ..Effects::nothing() }
    }

    /// Another image was selected.
    pub open spec fn moved(layout: Layout) -> Effects {
        Effects { image_changed: true, ..Effects::drawn(layout) }
    }

    /// Another image was selected, and the tree is another one too.
    pub open spec fn replaced(layout: Layout) -> Effects {
        Effects { tree_changed: true, ..Effects::moved(layout) }
    }

    fn redraw(layout: Layout) -> (e: Self)
        ensures
            e == Effects::drawn(layout),
    {
        Effects {
            redraw: true,
            image_changed: false,
            tree_changed: false,
            layout,
            rescan: false,
            stat_files: false,
        }
    }

    fn image(layout: Layout) -> (e: Self)
        ensures
            e == Effects::moved(layout),
    {
        Effects {
            redraw: true,
            image_changed: true,
            tree_changed: false,
            layout,
            rescan: false,
            stat_files: false,
        }
    }

    fn tree(layout: Layout) -> (e: Self)
        ensures
            e == Effects::replaced(layout),
    {
        Effects {
            redraw: true,
            image_changed: true,
            tree_changed: true,
            layout,
            rescan: false,
            stat_files: false,
        }
    }
}

impl Default for Effects {
    fn default() -> (e: Self)
        ensures
            e == Effects::nothing(),
    {
        Effects {
            redraw: false,
            image_changed: false,
            tree_changed: false,
            layout: Layout::Keep,
            rescan: false,
            stat_files: false,
        }
    }
}

/// Logical actions, decoupled from physical keys and buttons so they can be rebound and driven
/// directly.
#[derive(Clone, Copy, PartialEq, Eq, Debug, Structural)]
pub enum Action {
    Next,
    Prev,
    /// Jump by a number of groups, e.g. page-down.
    Skip(i64),
    First,
    Last,
    /// Trash the selected group.
    Delete,
    Undo,
    /// Confirm an armed delete.
    ConfirmDelete,
    /// Dismiss an armed delete or other transient state.
    Cancel,
    ToggleFitMode,
    /// Reset to fit-to-window.
    Fit,
    /// Zoom to 1:1.
    ActualSize,
}

/// What is selected and what is going on. The ring of decoded images lies beside it: both are
/// made by [`App::empty`] or [`App::new`], and every method that moves the window is handed the
/// ring.
pub struct App {
    /// The directory that the library is under.
    root: String,
    dirs: Vec<DirNode>,
    groups: Vec<Group>,
    history: History,
    index: usize,
    pub fit_mode: FitMode,
    shown: Option<Shown>,
    /// Native size and orientation per index, read cheaply from file headers so the view
    /// can be laid out before the pixels arrive.
    probed: HashMap<usize, (u32, u32, u16)>,
    /// Index whose file header has to be read before it can be laid out.
    to_probe: Option<usize>,
    /// Group awaiting a confirmed delete, if any.
    pending_delete: Option<usize>,
    /// Full prefetch radius, restored when navigation settles.
    radius: usize,
    /// When the last navigation happened, for detecting a held key.
    last_nav: Option<u64>,
    /// True while the user is scrolling faster than images can usefully be decoded.
    fast_scroll: bool,
    /// When the decode target last moved, for throttling it during a held key.
    last_retarget: Option<u64>,
    /// Last message for the status bar.
    pub status: String,
    /// Whether the prefetch window has been opened to its full radius yet. Startup warms
    /// only the first image; see [`App::warm_full_window`].
    warmed: bool,
}

/// The mathematical content of an [`App`].
#[verifier::ext_equal]
pub struct AppFacts {
    pub root: Seq<char>,
    pub dirs: Seq<DirFacts>,
    pub groups: Seq<GroupFacts>,
    pub history: Seq<DeletionFacts>,
    pub undo_limit: usize,
    pub index: usize,
    pub fit_mode: FitMode,
    pub shown: Option<ShownFacts>,
    pub probed: Map<usize, (u32, u32, u16)>,
    pub to_probe: Option<usize>,
    pub pending_delete: Option<usize>,
    pub radius: usize,
    pub last_nav: Option<u64>,
    pub fast_scroll: bool,
    pub last_retarget: Option<u64>,
    pub status: Seq<char>,
    pub warmed: bool,
}

impl View for App {
    type V = AppFacts;

    closed spec fn view(&self) -> AppFacts {
        AppFacts {
            root: self.root@,
            dirs: scan::dir_facts(self.dirs@),
            groups: scan::group_facts(self.groups@),
            history: self.history@,
            undo_limit: self.history.spec_limit(),
            index: self.index,
            fit_mode: self.fit_mode,
            shown: match self.shown {
                Some(s) => Some(s@),
                None => None,
            },
            probed: self.probed@,
            to_probe: self.to_probe,
            pending_delete: self.pending_delete,
            radius: self.radius,
            last_nav: self.last_nav,
            fast_scroll: self.fast_scroll,
            last_retarget: self.last_retarget,
            status: self.status@,
            warmed: self.warmed,
        }
    }
}

/// What an input leaves behind.
#[verifier::ext_equal]
pub struct Outcome {
    pub app: AppFacts,
    pub ring: Ring,
    pub effects: Effects,
}

/// The time from `t` to `now`; none if the clock stood still or went back.
pub open spec fn elapsed(now: u64, t: u64) -> int {
    if now >= t {
        now - t
    } else {
        0
    }
}

fn since(now: u64, t: u64) -> (d: u64)
    ensures
        d == elapsed(now, t),
{
    if now >= t {
        now - t
    } else {
        0
    }
}

/// The last index of a list of `n`, or 0.
pub open spec fn last_index(n: nat) -> int {
    if n == 0 {
        0
    } else {
        n - 1
    }
}

/// `i`, or the nearest index of a list of `n`.
pub open spec fn clamped(i: int, n: nat) -> int {
    if i < 0 {
        0
    } else if i > last_index(n) {
        last_index(n)
    } else {
        i
    }
}

/// The file to show for each group. A group without one has an empty path, which keeps the
/// indices aligned.
pub open spec fn display_paths(groups: Seq<GroupFacts>) -> Seq<Seq<char>> {
    Seq::new(
        groups.len(),
        |i: int|
            match groups[i].display_path() {
                Some(p) => p,
                None => Seq::empty(),
            },
    )
}

/// The message about a colour space.
pub open spec fn colour_message(c: Verdict) -> Seq<char> {
    "colour: "@ + c.spec_describe()
}

/// The message about a fit mode.
pub open spec fn mode_message(m: FitMode) -> Seq<char> {
    "mode: "@ + m.spec_label()
}

/// The message about `n` images.
pub open spec fn count_message(n: nat) -> Seq<char> {
    text::decimal(n) + " images"@
}

impl AppFacts {
    /// Displayed size of the current image, or a square fallback before one is bound.
    pub open spec fn displayed(self) -> (u32, u32) {
        match self.shown {
            Some(s) => s.displayed,
            None => (1, 1),
        }
    }

    /// The image fitted to the window.
    pub open spec fn fit(self) -> Layout {
        Layout::Fit { width: self.displayed().0, height: self.displayed().1 }
    }

    /// The image fitted to the window, or zoom and pan kept, according to the mode.
    pub open spec fn by_mode(self) -> Layout {
        match self.fit_mode {
            FitMode::Refit => self.fit(),
            FitMode::Preserve => Layout::Clamp {
                width: self.displayed().0,
                height: self.displayed().1,
            },
        }
    }

    /// What another size of the window asks for.
    pub open spec fn after_resize(self) -> Effects {
        Effects::drawn(self.by_mode())
    }

    /// What zooming or panning by hand asks for.
    pub open spec fn after_gesture(self) -> Effects {
        Effects::drawn(
            Layout::Clamp { width: self.displayed().0, height: self.displayed().1 },
        )
    }

    /// The state once an image is on screen.
    pub open spec fn noted(
        self,
        index: usize,
        stored: (u32, u32),
        orientation: u16,
        colour: Verdict,
    ) -> AppFacts {
        let o: u16 = if 1 <= orientation <= 8 {
            orientation
        } else {
            1
        };
        AppFacts {
            shown: Some(
                ShownFacts {
                    index,
                    stored,
                    orientation: o,
                    displayed: view::spec_displayed_size(o, stored.0, stored.1),
                    colour,
                },
            ),
            status: if colour is NotSrgb || colour is Unparsable {
                colour_message(colour)
            } else {
                self.status
            },
            ..self
        }
    }

    /// The state and the layout once the header of an image is known.
    pub open spec fn sized(self, index: usize, found: (u32, u32, u16)) -> (AppFacts, Layout) {
        let a = self.noted(
            index,
            (found.0, found.1),
            found.2,
            icc::spec_classify(None, None),
        );
        (a, a.by_mode())
    }

    /// The state and the layout once image `index` is to be shown: laid out from its header
    /// where that is known, and waiting for it otherwise.
    pub open spec fn laid_out(self, index: usize) -> (AppFacts, Layout) {
        if index >= self.groups.len() || self.groups[index as int].display_path() is None {
            (AppFacts { to_probe: None, ..self }, Layout::Keep)
        } else if self.probed.contains_key(index) {
            (AppFacts { to_probe: None, ..self }).sized(index, self.probed[index])
        } else {
            (AppFacts { to_probe: Some(index), ..self }, Layout::Keep)
        }
    }

    /// What the header of the image that waits for it makes of the state.
    pub open spec fn answered(self, found: Option<(u32, u32, u16)>) -> (AppFacts, Layout) {
        match self.to_probe {
            None => (self, Layout::Keep),
            Some(index) => {
                let a = AppFacts { to_probe: None, ..self };
                match found {
                    None => (a, Layout::Keep),
                    Some(p) => (AppFacts { probed: a.probed.insert(index, p), ..a }).sized(
                        index,
                        p,
                    ),
                }
            },
        }
    }

    /// The selected group.
    pub open spec fn current(self) -> Option<GroupFacts> {
        if self.index < self.groups.len() {
            Some(self.groups[self.index as int])
        } else {
            None
        }
    }

    /// The state once the colours of image `index` are known. Only the image on screen is
    /// relabelled, and only if the verdict is another one.
    pub open spec fn coloured(self, index: usize, colour: Verdict) -> AppFacts {
        match self.shown {
            Some(s) => if s.index != index || s.colour.spec_same(colour) {
                self
            } else {
                AppFacts {
                    shown: Some(ShownFacts { colour, ..s }),
                    status: if colour is NotSrgb || colour is Unparsable {
                        colour_message(colour)
                    } else {
                        self.status
                    },
                    ..self
                }
            },
            None => self,
        }
    }

    /// The mode and the message once the view has been touched by hand.
    pub open spec fn by_hand(self) -> AppFacts {
        if self.fit_mode == FitMode::Refit {
            AppFacts {
                fit_mode: FitMode::Preserve,
                status: mode_message(FitMode::Preserve),
                ..self
            }
        } else {
            self
        }
    }
}

/// The selection of `index`, or of the nearest one. Selecting anything else disarms a delete:
/// the user moved on.
///
/// While a key is held the selection keeps up with it, but the decoders are only pointed at a
/// new image a few times a second, and the image is only laid out then: the view stays sized
/// for the one on screen, not for one that is only passed through.
pub open spec fn selected(a: AppFacts, r: Ring, index: int, now: u64) -> Outcome {
    let target = clamped(index, a.groups.len()) as usize;
    if a.groups.len() == 0 || (target == a.index && a.shown is Some) {
        Outcome { app: a, ring: r, effects: Effects::nothing() }
    } else {
        let b = AppFacts { index: target, pending_delete: None, ..a };
        let due = a.last_retarget is None || elapsed(now, a.last_retarget->0) >= PREFETCH_THROTTLE;
        if a.fast_scroll && !due {
            Outcome { app: b, ring: r, effects: Effects::moved(Layout::Keep) }
        } else {
            let c = if a.fast_scroll {
                AppFacts { last_retarget: Some(now), ..b }
            } else {
                b
            };
            let (d, layout) = c.laid_out(target);
            Outcome { app: d, ring: r.recentred(target), effects: Effects::moved(layout) }
        }
    }
}

/// The ring with another radius around `centre`.
pub open spec fn resized(r: Ring, radius: usize, centre: usize) -> Ring {
    (Ring { radius, ..r }).recentred(centre)
}

/// A step by `delta` groups, which stops at the ends. Steps in quick succession are a held key,
/// for which the window shrinks.
pub open spec fn stepped(a: AppFacts, r: Ring, delta: int, now: u64) -> Outcome {
    if a.groups.len() == 0 {
        Outcome { app: a, ring: r, effects: Effects::nothing() }
    } else {
        let target = clamped(a.index + delta, a.groups.len());
        let held = a.last_nav is Some && elapsed(now, a.last_nav->0) < FAST_NAV;
        let b = AppFacts { last_nav: Some(now), ..a };
        if held && !a.fast_scroll {
            selected(
                AppFacts { fast_scroll: true, ..b },
                resized(r, FAST_RADIUS, target as usize),
                target,
                now,
            )
        } else {
            selected(b, r, target, now)
        }
    }
}

/// Navigation has been quiet for long enough.
pub open spec fn is_quiet(a: AppFacts, now: u64) -> bool {
    a.last_nav is None || elapsed(now, a.last_nav->0) >= SETTLE
}

/// The full window is restored once navigation has been quiet.
pub open spec fn settled(a: AppFacts, r: Ring, now: u64) -> Outcome {
    if !a.fast_scroll || !is_quiet(a, now) {
        Outcome { app: a, ring: r, effects: Effects::nothing() }
    } else {
        let b = AppFacts { fast_scroll: false, last_retarget: None, ..a };
        let (c, layout) = b.laid_out(a.index);
        Outcome {
            app: c,
            ring: resized(r, a.radius, a.index).recentred(a.index),
            effects: Effects::moved(layout),
        }
    }
}

/// The ring and the layout over a new list of groups: slots, sizes and an armed delete all go by
/// index.
pub open spec fn rebuilt(a: AppFacts, r: Ring) -> Outcome {
    let b = AppFacts { shown: None, probed: Map::empty(), pending_delete: None, ..a };
    let (c, layout) = b.laid_out(a.index);
    Outcome {
        app: c,
        ring: r.renewed(display_paths(a.groups), a.index),
        effects: Effects::replaced(layout),
    }
}

/// The state over a freshly scanned tree. Only the first image is warmed, until something is on
/// screen.
pub open spec fn adopted(a: AppFacts, r: Ring, dirs: Seq<DirFacts>) -> Outcome {
    let groups = scan::flat(dirs);
    let b = AppFacts {
        dirs,
        groups,
        index: 0,
        shown: None,
        probed: Map::empty(),
        pending_delete: None,
        status: count_message(groups.len()),
        warmed: false,
        ..a
    };
    let (c, layout) = b.laid_out(0);
    Outcome {
        app: c,
        ring: resized(r, 0, 0).renewed(display_paths(groups), 0),
        effects: Effects::replaced(layout),
    }
}

/// The window opened to its full radius, unless it was before.
pub open spec fn opened(a: AppFacts, r: Ring) -> Outcome {
    if a.warmed {
        Outcome { app: a, ring: r, effects: Effects::nothing() }
    } else {
        Outcome {
            app: AppFacts { warmed: true, ..a },
            ring: resized(r, a.radius, a.index).recentred(a.index),
            effects: Effects { stat_files: true, ..Effects::nothing() },
        }
    }
}

/// The state before any library is known.
pub open spec fn no_library(root: Seq<char>, radius: usize) -> AppFacts {
    AppFacts {
        root,
        dirs: Seq::empty(),
        groups: Seq::empty(),
        history: Seq::empty(),
        undo_limit: UNDO_LIMIT,
        index: 0,
        fit_mode: FitMode::Refit,
        shown: None,
        probed: Map::empty(),
        to_probe: None,
        pending_delete: None,
        radius,
        last_nav: None,
        fast_scroll: false,
        last_retarget: None,
        status: "scanning..."@,
        warmed: false,
    }
}

/// The ring before any library is known.
pub open spec fn no_images(radius: usize) -> Ring {
    Ring {
        paths: Seq::empty(),
        slots: Map::empty(),
        queue: Seq::empty(),
        centre: 0,
        radius,
        hint: None,
        needed: Seq::empty(),
        stats: crate::prefetch::Stats { decoded: 0, discarded: 0, skipped: 0, failed: 0 },
        epoch: 0,
    }
}

/// How many decode workers to run; see [`worker_count`].
pub open spec fn workers(asked: usize, cores: Option<usize>) -> int {
    if asked > 0 {
        asked as int
    } else {
        match cores {
            Some(c) => if c > 4 {
                c - 2
            } else {
                2
            },
            None => 4,
        }
    }
}

/// As many workers run as were asked for. Where nothing was asked for there are two at least, and
/// on a machine with more than four cores all but two of them have one; where the cores cannot be
/// counted there are four.
pub proof fn law_two_cores_are_left_over(asked: usize, cores: usize)
    ensures
        asked > 0 ==> workers(asked, Some(cores)) == asked && workers(asked, None) == asked,
        workers(0, None) == 4,
        workers(0, Some(cores)) >= 2,
        cores >= 4 ==> cores - workers(0, Some(cores)) == 2,
        cores < 4 ==> workers(0, Some(cores)) == 2,
{
}

/// How many decode workers to run: as many as asked for, or a couple fewer than the machine has
/// cores where nothing was asked for. The cores left over are for the UI thread and the GPU
/// driver.
pub fn worker_count(asked: usize, cores: Option<usize>) -> (n: usize)
    ensures
        n == (if asked > 0 {
            asked as int
        } else {
            match cores {
                Some(c) => if c > 4 {
                    c - 2
                } else {
                    2
                },
                None => 4,
            }
        }),
        n == workers(asked, cores),
{
    if asked > 0 {
        return asked;
    }
    match cores {
        Some(c) => if c > 4 {
            c - 2
        } else {
            2
        },
        None => 4,
    }
}

fn paths_to_show(groups: &Vec<Group>) -> (r: Vec<String>)
    ensures
        scan::strings(r@) == display_paths(scan::group_facts(groups@)),
{
    let mut r: Vec<String> = Vec::new();
    let ghost facts = scan::group_facts(groups@);
    for i in 0..groups.len()
        invariant
            facts == scan::group_facts(groups@),
            r@.len() == i,
            forall|k: int| 0 <= k < i ==> (#[trigger] r@[k])@ == display_paths(facts)[k],
    {
        assert(facts[i as int] == groups@[i as int]@);
        r.push(
            match groups[i].display_path() {
                Some(p) => text::copy(p),
                None => String::new(),
            },
        );
    }
    assert(scan::strings(r@) == display_paths(facts));
    r
}

impl App {
    /// An app with no library yet, and its ring. The library is under `root`.
    ///
    /// Scanning a large tree takes long enough to be the whole perceived launch, so it happens
    /// on a worker thread and the result arrives via [`App::adopt_scan`].
    pub fn empty(root: String, radius: usize) -> (r: (App, Prefetcher))
        ensures
            r.0@ == no_library(root@, radius),
            r.1@ == no_images(radius),
    {
        let app = App {
            root,
            dirs: Vec::new(),
            groups: Vec::new(),
            history: History::new(UNDO_LIMIT),
            index: 0,
            fit_mode: FitMode::Refit,
            shown: None,
            probed: HashMap::new(),
            to_probe: None,
            pending_delete: None,
            radius,
            last_nav: None,
            fast_scroll: false,
            last_retarget: None,
            status: String::from_str("scanning..."),
            warmed: false,
        };
        let paths: Vec<String> = Vec::new();
        let ring = Prefetcher::new(paths, radius);
        assert(app@ == no_library(root@, radius));
        assert(ring@ == no_images(radius));
        (app, ring)
    }

    /// An app over the tree that was found under `root`, and its ring.
    pub fn new(root: String, dirs: Vec<DirNode>, radius: usize) -> (r: (App, Prefetcher))
        ensures
            ({
                let o = adopted(
                    no_library(root@, radius),
                    no_images(radius),
                    scan::dir_facts(dirs@),
                );
                r.0@ == o.app && r.1@ == o.ring
            }),
    {
        let (mut app, mut ring) = App::empty(root, radius);
        app.adopt_scan(dirs, &mut ring);
        (app, ring)
    }

    /// Take the result of a scan and start showing it.
    pub fn adopt_scan(&mut self, dirs: Vec<DirNode>, ring: &mut Prefetcher) -> (e: Effects)
        ensures
            (Outcome { app: final(self)@, ring: final(ring)@, effects: e }) == adopted(
                old(self)@,
                old(ring)@,
                scan::dir_facts(dirs@),
            ),
    {
        self.groups = scan::flatten(&dirs);
        self.dirs = dirs;
        self.index = 0;
        self.shown = None;
        self.probed.clear();
        self.pending_delete = None;
        let mut status = String::new();
        text::push_decimal(&mut status, self.groups.len() as u64);
        status.append(" images");
        self.status = status;

        // Narrow the window *before* handing over the paths: `reset` re-centres, and at full
        // radius that would queue twenty decodes the user cannot see yet, competing with the
        // one they can. `warm_full_window` opens it again once something is on screen.
        ring.set_radius(0, 0);
        ring.reset(paths_to_show(&self.groups), 0);
        // Re-arm the deferred work, since none of it can have run without a library.
        self.warmed = false;

        // Lay the first image out from its header, or the view would fit a placeholder and
        // then visibly refit when the texture lands.
        let layout = self.apply_probed_size(0);
        Effects::tree(layout)
    }

    /// Lay the view out from the file header, before the decoded pixels exist.
    fn apply_probed_size(&mut self, index: usize) -> (layout: Layout)
        ensures
            (final(self)@, layout) == old(self)@.laid_out(index),
    {
        let ghost before = self@;
        self.to_probe = None;
        if index >= self.groups.len() {
            return Layout::Keep;
        }
        assert(before.groups[index as int] == self.groups@[index as int]@);
        if self.groups[index].display_path().is_none() {
            return Layout::Keep;
        }
        let known = match self.probed.get(&index) {
            Some(p) => Some(*p),
            None => None,
        };
        match known {
            Some(p) => self.note_shown(index, (p.0, p.1), p.2, None, None),
            None => {
                self.to_probe = Some(index);
                Layout::Keep
            },
        }
    }

    /// Record what is now on screen and set up the view for it.
    ///
    /// Called by the renderer once a texture is bound, because only then are the real
    /// dimensions known.
    pub fn note_shown(
        &mut self,
        index: usize,
        stored: (u32, u32),
        orientation: u16,
        icc_profile: Option<&[u8]>,
        exif_cs: Option<ColorSpace>,
    ) -> (layout: Layout)
        ensures
            final(self)@ == old(self)@.noted(
                index,
                stored,
                orientation,
                icc::spec_classify(
                    match icc_profile {
                        Some(p) => Some(p@),
                        None => None,
                    },
                    exif_cs,
                ),
            ),
            layout == final(self)@.by_mode(),
    {
        let o = Orientation::new(orientation);
        let displayed = o.displayed_size(stored.0, stored.1);
        let colour = icc::classify(icc_profile, exif_cs);
        if colour.needs_warning() {
            let mut status = String::from_str("colour: ");
            status.append(colour.describe().as_str());
            self.status = status;
        }
        self.shown = Some(Shown { index, stored, orientation: o, displayed, colour });
        // A new image resets or preserves the view according to the mode.
        self.layout_by_mode()
    }

    fn displayed(&self) -> (r: (u32, u32))
        ensures
            r == self@.displayed(),
    {
        match &self.shown {
            Some(s) => s.displayed,
            None => (1, 1),
        }
    }

    fn fitted(&self) -> (l: Layout)
        ensures
            l == self@.fit(),
    {
        let (width, height) = self.displayed();
        Layout::Fit { width, height }
    }

    fn layout_by_mode(&self) -> (l: Layout)
        ensures
            l == self@.by_mode(),
    {
        let (width, height) = self.displayed();
        match self.fit_mode {
            FitMode::Refit => Layout::Fit { width, height },
            FitMode::Preserve => Layout::Clamp { width, height },
        }
    }
}

/// The selected group taken off the list. Staying at the same index lands on the next image,
/// which is what culling wants.
pub open spec fn removed(a: AppFacts, r: Ring) -> Outcome {
    let g = a.groups[a.index as int];
    let groups = a.groups.remove(a.index as int);
    rebuilt(
        AppFacts {
            dirs: tree::pruned(a.dirs, g.dir, g.stem),
            groups,
            index: clamped(a.index as int, groups.len()) as usize,
            ..a
        },
        r,
    )
}

/// What a deletion of the selected group leaves behind. Where a file could not be trashed the
/// group stays: its files are still on disk, so pretending otherwise would hide the problem.
pub open spec fn deleted(a: AppFacts, r: Ring, d: DeletionFacts) -> Outcome {
    let b = AppFacts {
        pending_delete: None,
        history: trash::history_after(a.history, a.undo_limit, d),
        status: d.summary(),
        ..a
    };
    if d.failed.len() > 0 {
        Outcome { app: b, ring: r, effects: Effects::drawn(Layout::Keep) }
    } else {
        removed(b, r)
    }
}

/// The paths of a group's members.
pub open spec fn member_paths(g: GroupFacts) -> Seq<Seq<char>> {
    Seq::new(g.members.len(), |i: int| g.members[i].path)
}

/// The deletion of the selected group, as far as the trash takes its files; `calls` are the
/// calls on the trash that it took.
pub open spec fn deletes_selected(
    calls: Seq<Call>,
    g: GroupFacts,
    a: AppFacts,
    r: Ring,
    out: Outcome,
) -> bool {
    exists|d: DeletionFacts|
        {
            &&& #[trigger] trash::deletes(g.stem, member_paths(g), calls, d)
            &&& out == deleted(a, r, d)
        }
}

/// The confirmation of a delete: it only ever deletes the group that was armed, and makes no
/// other calls on the trash than that takes.
pub open spec fn confirms(calls: Seq<Call>, a: AppFacts, r: Ring, out: Outcome) -> bool {
    let b = AppFacts { pending_delete: None, ..a };
    match a.pending_delete {
        None => calls.len() == 0 && out == (Outcome {
            app: a,
            ring: r,
            effects: Effects::nothing(),
        }),
        Some(i) => if i != a.index {
            calls.len() == 0 && out == (Outcome {
                app: AppFacts { status: "selection changed, delete cancelled"@, ..b },
                ring: r,
                effects: Effects::drawn(Layout::Keep),
            })
        } else {
            match a.current() {
                None => calls.len() == 0 && out == (Outcome {
                    app: b,
                    ring: r,
                    effects: Effects::nothing(),
                }),
                Some(g) => deletes_selected(calls, g, a, r, out),
            }
        },
    }
}

/// The undoing of the last deletion. The restored files are back on disk; reading the tree again
/// is the honest way to find out where they belong in the ordering.
pub open spec fn undoes(calls: Seq<Call>, a: AppFacts, r: Ring, out: Outcome) -> bool {
    if a.history.len() == 0 {
        calls.len() == 0 && out == (Outcome {
            app: AppFacts { status: "nothing to undo"@, ..a },
            ring: r,
            effects: Effects::drawn(Layout::Keep),
        })
    } else {
        exists|s: trash::RestoreFacts|
            {
                &&& #[trigger] trash::restores(a.history.last(), calls, s)
                &&& out == (Outcome {
                    app: AppFacts {
                        history: a.history.drop_last(),
                        status: s.summary(),
                        ..a
                    },
                    ring: r,
                    effects: Effects { rescan: true, ..Effects::drawn(Layout::Keep) },
                })
            }
    }
}

/// The state over a tree that was read again, with the selection on the same group where
/// possible.
pub open spec fn rescanned(a: AppFacts, r: Ring, dirs: Seq<DirFacts>) -> Outcome {
    let b = AppFacts { dirs, groups: scan::flat(dirs), ..a };
    let at = match a.current() {
        Some(g) => tree::group_from(b.groups, g.dir, g.stem, 0),
        None => b.groups.len() as int,
    };
    let index = clamped(
        if at < b.groups.len() {
            at
        } else {
            a.index as int
        },
        b.groups.len(),
    );
    let o = rebuilt(AppFacts { index: index as usize, ..b }, r);
    Outcome { effects: Effects { stat_files: true, ..o.effects }, ..o }
}

/// The bytes that a delete will be said to free: what is known in the background once it is
/// known of every file, or else what was found on disk.
pub open spec fn bytes_at_stake(
    known: Map<Seq<char>, FileMeta>,
    g: GroupFacts,
    on_disk: u64,
) -> nat {
    if scan::all_known(known, g.members) {
        scan::known_bytes(known, g.members)
    } else {
        on_disk as nat
    }
}

/// The question that an armed delete asks.
pub open spec fn delete_question(g: GroupFacts, bytes: nat) -> Seq<char> {
    "delete "@ + g.stem + " ("@ + text::decimal(g.members.len()) + " files, "@
        + crate::format::size_text(bytes) + ")? Enter to confirm, Esc to cancel"@
}

/// A delete armed, to be confirmed. Deleting is the one action with real consequences, so it
/// takes two keystrokes.
pub open spec fn armed(a: AppFacts, r: Ring, bytes: nat) -> Outcome {
    match a.current() {
        Some(g) => Outcome {
            app: AppFacts {
                pending_delete: Some(a.index),
                status: delete_question(g, bytes),
                ..a
            },
            ring: r,
            effects: Effects::drawn(Layout::Keep),
        },
        None => Outcome { app: a, ring: r, effects: Effects::nothing() },
    }
}

/// What an action can lead to, and the calls on the trash that it takes: none but for a
/// confirmed delete and for undo.
pub open spec fn acts(
    calls: Seq<Call>,
    known: Map<Seq<char>, FileMeta>,
    on_disk: u64,
    a: AppFacts,
    r: Ring,
    action: Action,
    now: u64,
    out: Outcome,
) -> bool {
    &&& action != Action::ConfirmDelete && action != Action::Undo ==> calls.len() == 0
    &&& match action {
        Action::Next => out == stepped(a, r, 1, now),
        Action::Prev => out == stepped(a, r, -1, now),
        Action::Skip(n) => out == stepped(a, r, n as int, now),
        Action::First => out == selected(a, r, 0, now),
        Action::Last => out == selected(a, r, last_index(a.groups.len()), now),
        Action::Delete => out == armed(
            a,
            r,
            bytes_at_stake(known, a.groups[a.index as int], on_disk),
        ),
        Action::ConfirmDelete => confirms(calls, a, r, out),
        Action::Cancel => out == (Outcome {
            app: if a.pending_delete is Some {
                AppFacts { pending_delete: None, status: "delete cancelled"@, ..a }
            } else {
                a
            },
            ring: r,
            effects: Effects::drawn(Layout::Keep),
        }),
        Action::Undo => undoes(calls, a, r, out),
        Action::ToggleFitMode => out == (Outcome {
            app: AppFacts {
                fit_mode: a.fit_mode.spec_toggled(),
                status: mode_message(a.fit_mode.spec_toggled()),
                ..a
            },
            ring: r,
            // Toggling into refit applies immediately, so the effect is visible.
            effects: Effects::drawn(
                if a.fit_mode == FitMode::Preserve {
                    a.fit()
                } else {
                    Layout::Keep
                },
            ),
        }),
        Action::Fit => out == (Outcome { app: a, ring: r, effects: Effects::drawn(a.fit()) }),
        Action::ActualSize => out == (Outcome {
            app: a.by_hand(),
            ring: r,
            effects: Effects::drawn(
                Layout::ActualSize { width: a.displayed().0, height: a.displayed().1 },
            ),
        }),
    }
}

impl App {
    pub fn dirs(&self) -> (r: &Vec<DirNode>)
        ensures
            scan::dir_facts(r@) == self@.dirs,
    {
        &self.dirs
    }

    pub fn groups(&self) -> (r: &Vec<Group>)
        ensures
            scan::group_facts(r@) == self@.groups,
    {
        &self.groups
    }

    pub fn index(&self) -> (i: usize)
        ensures
            i == self@.index,
    {
        self.index
    }

    pub fn len(&self) -> (n: usize)
        ensures
            n == self@.groups.len(),
    {
        self.groups.len()
    }

    pub fn is_empty(&self) -> (r: bool)
        ensures
            r == (self@.groups.len() == 0),
    {
        self.groups.len() == 0
    }

    pub fn shown(&self) -> (r: Option<&Shown>)
        ensures
            match r {
                Some(s) => self@.shown == Some(s@),
                None => self@.shown is None,
            },
    {
        match &self.shown {
            Some(s) => Some(s),
            None => None,
        }
    }

    pub fn current(&self) -> (r: Option<&Group>)
        ensures
            match r {
                Some(g) => self@.current() == Some(g@),
                None => self@.current() is None,
            },
    {
        if self.index < self.groups.len() {
            assert(self@.groups[self.index as int] == self.groups@[self.index as int]@);
            Some(&self.groups[self.index])
        } else {
            None
        }
    }

    pub fn history_len(&self) -> (n: usize)
        ensures
            n == self@.history.len(),
    {
        self.history.len()
    }

    pub fn mode(&self) -> (m: FitMode)
        ensures
            m == self@.fit_mode,
    {
        self.fit_mode
    }

    /// Last message for the status bar.
    pub fn message(&self) -> (s: String)
        ensures
            s@ == self@.status,
    {
        self.status.clone()
    }

    /// State of the selected slot, for showing a spinner or an error.
    pub fn current_state(&self, ring: &Prefetcher) -> (s: State)
        ensures
            s == ring@.state(self@.index),
    {
        ring.state(self.index)
    }

    /// True while a navigation key is being held.
    pub fn fast_scrolling(&self) -> (r: bool)
        ensures
            r == self@.fast_scroll,
    {
        self.fast_scroll
    }

    /// True when a delete is armed and awaiting Enter.
    pub fn delete_pending(&self) -> (r: bool)
        ensures
            r == (self@.pending_delete is Some),
    {
        self.pending_delete.is_some()
    }

    /// The file whose header has to be read next, for [`App::probed`].
    pub fn probe_path(&self) -> (r: Option<&str>)
        ensures
            match r {
                Some(p) => self@.to_probe is Some && self@.to_probe->0 < self@.groups.len()
                    && self@.groups[self@.to_probe->0 as int].display_path() == Some(p@),
                None => self@.to_probe is None || self@.to_probe->0 >= self@.groups.len()
                    || self@.groups[self@.to_probe->0 as int].display_path() is None,
            },
    {
        match self.to_probe {
            Some(index) => if index < self.groups.len() {
                assert(self@.groups[index as int] == self.groups@[index as int]@);
                self.groups[index].display_path()
            } else {
                None
            },
            None => None,
        }
    }

    /// Take what was found in the header of [`App::probe_path`], if anything was, and lay the
    /// view out from it.
    pub fn probed(&mut self, found: Option<(u32, u32, u16)>) -> (layout: Layout)
        ensures
            (final(self)@, layout) == old(self)@.answered(found),
    {
        match self.to_probe {
            None => Layout::Keep,
            Some(index) => {
                self.to_probe = None;
                match found {
                    None => Layout::Keep,
                    Some(p) => {
                        self.probed.insert(index, p);
                        self.note_shown(index, (p.0, p.1), p.2, None, None)
                    },
                }
            },
        }
    }

    /// Every file of the library, for stat'ing in the background.
    pub fn meta_paths(&self) -> (r: Vec<String>)
        ensures
            scan::strings(r@) == paths_of_all(self@.groups),
    {
        let mut r: Vec<String> = Vec::new();
        let ghost facts = self@.groups;
        assert(scan::strings(r@) == paths_of_all(facts.take(0)));
        for i in 0..self.groups.len()
            invariant
                facts == scan::group_facts(self.groups@),
                scan::strings(r@) == paths_of_all(facts.take(i as int)),
        {
            let ghost before = scan::strings(r@);
            let mut more = self.groups[i].member_paths();
            let ghost added = scan::strings(more@);
            let ghost was = r@;
            let ghost tail = more@;
            r.append(&mut more);
            assert(scan::strings(was + tail) == before + added);
            assert(facts.take(i + 1).drop_last() == facts.take(i as int));
            assert(facts.take(i + 1).last() == self.groups@[i as int]@);
            assert(added == member_paths(facts[i as int]));
        }
        assert(facts.take(facts.len() as int) == facts);
        r
    }

    /// Open the prefetch window to its full radius. Idempotent.
    ///
    /// Called once the first frame is on screen. Until then only the image being shown is
    /// decoded, so startup does not spend every core on neighbours the user cannot navigate to
    /// yet anyway. The stat'ing of the files waits for the same reason.
    pub fn warm_full_window(&mut self, ring: &mut Prefetcher) -> (e: Effects)
        ensures
            (Outcome { app: final(self)@, ring: final(ring)@, effects: e }) == opened(
                old(self)@,
                old(ring)@,
            ),
    {
        let mut e = Effects::default();
        if self.warmed {
            return e;
        }
        self.warmed = true;
        // The radius is pinned to 0 until here, so this is what actually opens it.
        ring.set_radius(self.radius, self.index);
        ring.set_centre(self.index);
        e.stat_files = true;
        e
    }

    /// Record the colour verdict once the real pixels exist.
    ///
    /// Separate from [`App::note_shown`] because the view is laid out from the file header
    /// before decoding, and at that point no profile has been read. Only the decoded image
    /// carries one, and noting the image again then would refit the view and undo whatever zoom
    /// the user had set.
    pub fn note_colour(&mut self, index: usize, colour: Verdict)
        ensures
            final(self)@ == old(self)@.coloured(index, colour),
    {
        let s = match &self.shown {
            Some(s) => *s,
            None => {
                return ;
            },
        };
        if s.index != index || s.colour.same(colour) {
            return ;
        }
        self.shown = Some(
            Shown {
                index: s.index,
                stored: s.stored,
                orientation: s.orientation,
                displayed: s.displayed,
                colour,
            },
        );
        if colour.needs_warning() {
            let mut status = String::from_str("colour: ");
            status.append(colour.describe().as_str());
            self.status = status;
        }
    }

    /// The window has another size. Refit on resize only in refit mode; preserving zoom means
    /// preserving it here too, just re-clamped.
    pub fn resize(&self) -> (e: Effects)
        ensures
            e == Effects::drawn(self@.by_mode()),
            e == self@.after_resize(),
    {
        Effects::redraw(self.layout_by_mode())
    }

    /// The user zoomed by hand.
    pub fn zoom(&mut self) -> (e: Effects)
        ensures
            final(self)@ == old(self)@.by_hand(),
            e == Effects::drawn(
                Layout::Clamp { width: old(self)@.displayed().0, height: old(self)@.displayed().1 },
            ),
            e == old(self)@.after_gesture(),
    {
        let (width, height) = self.displayed();
        self.take_manual_control();
        Effects::redraw(Layout::Clamp { width, height })
    }

    /// The user panned by hand.
    pub fn pan(&mut self) -> (e: Effects)
        ensures
            final(self)@ == old(self)@.by_hand(),
            e == Effects::drawn(
                Layout::Clamp { width: old(self)@.displayed().0, height: old(self)@.displayed().1 },
            ),
            e == old(self)@.after_gesture(),
    {
        let (width, height) = self.displayed();
        self.take_manual_control();
        Effects::redraw(Layout::Clamp { width, height })
    }

    /// Touching the view by hand leaves refit mode.
    ///
    /// Otherwise the mode still says "refit" while the view plainly is not fitted, and toggling
    /// it appears to do nothing the first time. Switching here makes a single toggle recentre.
    fn take_manual_control(&mut self)
        ensures
            final(self)@ == old(self)@.by_hand(),
    {
        if self.fit_mode == FitMode::Refit {
            self.fit_mode = FitMode::Preserve;
            self.say_mode();
        }
    }

    fn say_mode(&mut self)
        ensures
            final(self)@ == (AppFacts {
                status: mode_message(old(self)@.fit_mode),
                ..old(self)@
            }),
    {
        let mut status = String::from_str("mode: ");
        status.append(self.fit_mode.label());
        self.status = status;
    }

    /// Select an index, clamped into range. Moves the prefetch window.
    pub fn select(&mut self, index: usize, now: u64, ring: &mut Prefetcher) -> (e: Effects)
        ensures
            (Outcome { app: final(self)@, ring: final(ring)@, effects: e }) == selected(
                old(self)@,
                old(ring)@,
                index as int,
                now,
            ),
    {
        if self.groups.len() == 0 {
            return Effects::default();
        }
        let last: usize = self.groups.len() - 1;
        let target: usize = if index > last {
            last
        } else {
            index
        };
        if target == self.index && self.shown.is_some() {
            return Effects::default();
        }
        self.index = target;
        self.pending_delete = None;
        if self.fast_scroll {
            let due = match self.last_retarget {
                Some(t) => since(now, t) >= PREFETCH_THROTTLE,
                None => true,
            };
            if !due {
                return Effects::image(Layout::Keep);
            }
            self.last_retarget = Some(now);
        }
        ring.set_centre(target);
        let layout = self.apply_probed_size(target);
        Effects::image(layout)
    }

    fn step(&mut self, delta: i64, now: u64, ring: &mut Prefetcher) -> (e: Effects)
        ensures
            (Outcome { app: final(self)@, ring: final(ring)@, effects: e }) == stepped(
                old(self)@,
                old(ring)@,
                delta as int,
                now,
            ),
    {
        if self.groups.len() == 0 {
            return Effects::default();
        }
        let last: i128 = (self.groups.len() - 1) as i128;
        // Saturating rather than wrapping: running off the end of a shoot should stop, not
        // silently teleport to the other end mid-cull.
        let wanted: i128 = self.index as i128 + delta as i128;
        let target: usize = if wanted < 0 {
            0
        } else if wanted > last {
            last as usize
        } else {
            wanted as usize
        };
        // A held key produces navigations far faster than a 25 MP image can be decoded.
        // Prefetching the full window for each one queues work that is discarded before it can
        // be displayed, and saturates the cores the UI needs. So shrink the window while it
        // lasts and restore it once navigation settles.
        let held = match self.last_nav {
            Some(t) => since(now, t) < FAST_NAV,
            None => false,
        };
        self.last_nav = Some(now);
        if held && !self.fast_scroll {
            self.fast_scroll = true;
            ring.set_radius(FAST_RADIUS, target);
        }
        self.select(target, now, ring)
    }

    /// When the event loop should wake to check whether navigation has settled.
    ///
    /// `None` means there is nothing pending and the loop may sleep indefinitely.
    pub fn settle_deadline(&self) -> (r: Option<u64>)
        ensures
            r == (if !self@.fast_scroll || self@.last_nav is None {
                None
            } else if self@.last_nav->0 + SETTLE <= u64::MAX {
                Some((self@.last_nav->0 + SETTLE) as u64)
            } else {
                Some(u64::MAX)
            }),
            // Waking then is soon enough, and waking before is for nothing.
            forall|ring: Ring, now: u64|
                (#[trigger] settled(self@, ring, now)).effects.redraw ==> (match r {
                    Some(t) => now >= t || (now == u64::MAX),
                    None => self@.last_nav is None,
                }),
            forall|ring: Ring, now: u64|
                r is Some && now >= r->0 && r->0 < u64::MAX ==> (#[trigger] settled(
                    self@,
                    ring,
                    now,
                )).effects.redraw,
    {
        if !self.fast_scroll {
            return None;
        }
        match self.last_nav {
            Some(t) => Some(
                if t <= u64::MAX - SETTLE {
                    t + SETTLE
                } else {
                    u64::MAX
                },
            ),
            None => None,
        }
    }

    /// Restore the full prefetch window once navigation has been quiet.
    ///
    /// Call whenever the loop wakes. Returns effects if anything changed.
    pub fn tick(&mut self, now: u64, ring: &mut Prefetcher) -> (e: Effects)
        ensures
            (Outcome { app: final(self)@, ring: final(ring)@, effects: e }) == settled(
                old(self)@,
                old(ring)@,
                now,
            ),
    {
        if !self.fast_scroll {
            return Effects::default();
        }
        let quiet = match self.last_nav {
            Some(t) => since(now, t) >= SETTLE,
            None => true,
        };
        if !quiet {
            return Effects::default();
        }
        // Settled: refill the full window around wherever we landed, and size the view for it
        // now that it is the image that will actually be shown.
        self.fast_scroll = false;
        self.last_retarget = None;
        ring.set_radius(self.radius, self.index);
        ring.set_centre(self.index);
        let layout = self.apply_probed_size(self.index);
        Effects::image(layout)
    }
}

/// The paths of all groups' members, one group after the other.
pub open spec fn paths_of_all(groups: Seq<GroupFacts>) -> Seq<Seq<char>>
    decreases groups.len(),
{
    if groups.len() == 0 {
        Seq::empty()
    } else {
        paths_of_all(groups.drop_last()) + member_paths(groups.last())
    }
}

impl App {
    /// The ring indexes into the group list, so any change to that list invalidates it.
    fn rebuild_ring(&mut self, ring: &mut Prefetcher) -> (e: Effects)
        ensures
            (Outcome { app: final(self)@, ring: final(ring)@, effects: e }) == rebuilt(
                old(self)@,
                old(ring)@,
            ),
    {
        ring.reset(paths_to_show(&self.groups), self.index);
        self.shown = None;
        // Indices moved, so cached sizes now refer to the wrong images.
        self.probed.clear();
        self.pending_delete = None;
        let layout = self.apply_probed_size(self.index);
        Effects::tree(layout)
    }

    /// Drop the selected group from the list and rebuild the prefetch ring around the new
    /// index.
    fn remove_selected(&mut self, ring: &mut Prefetcher) -> (e: Effects)
        requires
            old(self)@.index < old(self)@.groups.len(),
        ensures
            (Outcome { app: final(self)@, ring: final(ring)@, effects: e }) == removed(
                old(self)@,
                old(ring)@,
            ),
    {
        let ghost before = self@;
        let gone = self.groups.remove(self.index);
        assert(gone@ == before.groups[before.index as int]);
        assert(scan::group_facts(self.groups@) == before.groups.remove(before.index as int));
        // Keep the tree in step so the sidebar does not show a deleted entry.
        let mut dirs: Vec<DirNode> = Vec::new();
        std::mem::swap(&mut dirs, &mut self.dirs);
        self.dirs = tree::prune(dirs, &gone.dir, &gone.stem);
        if self.index >= self.groups.len() {
            self.index = if self.groups.len() == 0 {
                0
            } else {
                self.groups.len() - 1
            };
        }
        self.rebuild_ring(ring)
    }

    /// Trash the selected group and drop it from the list.
    fn delete_current<B: Bin>(&mut self, bin: &mut B, ring: &mut Prefetcher) -> (e: Effects)
        requires
            old(self)@.pending_delete == Some(old(self)@.index),
        ensures
            final(bin).log() == old(bin).log() + trash::since(old(bin).log(), final(bin).log()),
            confirms(
                trash::since(old(bin).log(), final(bin).log()),
                old(self)@,
                old(ring)@,
                Outcome { app: final(self)@, ring: final(ring)@, effects: e },
            ),
    {
        let ghost a = self@;
        let ghost r = ring@;
        let ghost before = bin.log();
        self.pending_delete = None;
        if self.index >= self.groups.len() {
            assert(before == before + trash::since(before, before));
            return Effects::default();
        }
        let ghost g = a.groups[a.index as int];
        assert(g == self.groups@[self.index as int]@);
        let stem = self.groups[self.index].stem.clone();
        let paths = self.groups[self.index].all_paths();
        assert(trash::texts(paths@) == member_paths(g));
        let d = trash::delete_and_record(bin, &mut self.history, stem.as_str(), &paths);
        let ghost calls = trash::since(before, bin.log());
        assert(trash::deletes(g.stem, member_paths(g), calls, d@));
        self.status = d.summary();
        if !d.is_clean() {
            let e = Effects::redraw(Layout::Keep);
            assert((Outcome { app: self@, ring: ring@, effects: e }) == deleted(a, r, d@));
            assert(deletes_selected(calls, g, a, r, Outcome { app: self@, ring: ring@, effects: e }));
            return e;
        }
        let e = self.remove_selected(ring);
        assert((Outcome { app: self@, ring: ring@, effects: e }) == deleted(a, r, d@));
        assert(deletes_selected(calls, g, a, r, Outcome { app: self@, ring: ring@, effects: e }));
        e
    }

    fn confirm_delete<B: Bin>(&mut self, bin: &mut B, ring: &mut Prefetcher) -> (e: Effects)
        ensures
            final(bin).log() == old(bin).log() + trash::since(old(bin).log(), final(bin).log()),
            confirms(
                trash::since(old(bin).log(), final(bin).log()),
                old(self)@,
                old(ring)@,
                Outcome { app: final(self)@, ring: final(ring)@, effects: e },
            ),
    {
        let ghost before = bin.log();
        assert(before == before + trash::since(before, before));
        // Only ever delete the group that was armed, in case the selection moved.
        match self.pending_delete {
            Some(i) => if i == self.index {
                self.delete_current(bin, ring)
            } else {
                self.pending_delete = None;
                self.status = String::from_str("selection changed, delete cancelled");
                Effects::redraw(Layout::Keep)
            },
            None => Effects::default(),
        }
    }

    /// Arm a delete, to be confirmed with Enter.
    ///
    /// `on_disk` is the size of the group's files on disk, which counts where the background
    /// pass has not reached them yet: the confirmation should always say how much is going.
    fn arm_delete(&mut self, meta: &MetaStore, on_disk: u64) -> (e: Effects)
        requires
            old(self)@.current() is Some ==> scan::known_bytes(
                meta@,
                old(self)@.current()->0.members,
            ) <= u64::MAX,
        ensures
            forall|r: Ring|
                (Outcome { app: final(self)@, ring: r, effects: e }) == #[trigger] armed(
                    old(self)@,
                    r,
                    bytes_at_stake(meta@, old(self)@.groups[old(self)@.index as int], on_disk),
                ),
    {
        if self.index >= self.groups.len() {
            return Effects::default();
        }
        let g = &self.groups[self.index];
        assert(g@ == self@.groups[self.index as int]);
        let bytes: u64 = match meta.group_bytes(g) {
            Some(n) => n,
            None => on_disk,
        };
        let mut status = String::from_str("delete ");
        status.append(g.stem.as_str());
        status.append(" (");
        text::push_decimal(&mut status, g.members.len() as u64);
        status.append(" files, ");
        status.append(crate::format::format_size(bytes).as_str());
        status.append(")? Enter to confirm, Esc to cancel");
        self.pending_delete = Some(self.index);
        self.status = status;
        Effects::redraw(Layout::Keep)
    }

    fn undo<B: Bin>(&mut self, bin: &mut B) -> (e: Effects)
        ensures
            final(bin).log() == old(bin).log() + trash::since(old(bin).log(), final(bin).log()),
            forall|r: Ring| #[trigger]
                undoes(
                    trash::since(old(bin).log(), final(bin).log()),
                    old(self)@,
                    r,
                    Outcome { app: final(self)@, ring: r, effects: e },
                ),
    {
        let ghost a = self@;
        let ghost before = bin.log();
        match trash::undo(bin, &mut self.history) {
            None => {
                self.status = String::from_str("nothing to undo");
                Effects::redraw(Layout::Keep)
            },
            Some(r) => {
                self.status = r.summary();
                let mut e = Effects::redraw(Layout::Keep);
                e.rescan = true;
                assert(trash::restores(a.history.last(), trash::since(before, bin.log()), r@));
                e
            },
        }
    }

    /// The directory to read again for [`App::rescan`]: the one that was given to start with.
    ///
    /// Not a leaf, or a rescan after deleting the last item in a directory would lose its
    /// siblings, and one after deleting the last item of all would find nothing.
    pub fn rescan_root(&self) -> (r: &str)
        ensures
            r@ == self@.root,
    {
        self.root.as_str()
    }

    /// Take a tree that was read again, keeping the selection on the same group where possible.
    ///
    /// Needed after undo, and useful when the library changed underneath us. The files need
    /// stat'ing again, since some have reappeared; after a plain delete they do not.
    pub fn rescan(&mut self, dirs: Vec<DirNode>, ring: &mut Prefetcher) -> (e: Effects)
        ensures
            (Outcome { app: final(self)@, ring: final(ring)@, effects: e }) == rescanned(
                old(self)@,
                old(ring)@,
                scan::dir_facts(dirs@),
            ),
    {
        let ghost a = self@;
        let anchor = if self.index < self.groups.len() {
            assert(a.groups[a.index as int] == self.groups@[self.index as int]@);
            Some((self.groups[self.index].dir.clone(), self.groups[self.index].stem.clone()))
        } else {
            None
        };
        self.groups = scan::flatten(&dirs);
        self.dirs = dirs;
        if let Some((dir, stem)) = anchor {
            let k = tree::find_group(&self.groups, &dir, &stem);
            if k < self.groups.len() {
                self.index = k;
            }
        }
        if self.index >= self.groups.len() {
            self.index = if self.groups.len() == 0 {
                0
            } else {
                self.groups.len() - 1
            };
        }
        let mut e = self.rebuild_ring(ring);
        e.stat_files = true;
        e
    }

    /// Do what the user asked for.
    ///
    /// `on_disk` is the size of the selected group's files on disk. It is only looked at when a
    /// delete is armed whose files the background pass has not reached yet.
    pub fn act<B: Bin>(
        &mut self,
        action: Action,
        now: u64,
        ring: &mut Prefetcher,
        bin: &mut B,
        meta: &MetaStore,
        on_disk: u64,
    ) -> (e: Effects)
        requires
            action == Action::Delete && old(self)@.current() is Some ==> scan::known_bytes(
                meta@,
                old(self)@.current()->0.members,
            ) <= u64::MAX,
        ensures
            final(bin).log() == old(bin).log() + trash::since(old(bin).log(), final(bin).log()),
            acts(
                trash::since(old(bin).log(), final(bin).log()),
                meta@,
                on_disk,
                old(self)@,
                old(ring)@,
                action,
                now,
                Outcome { app: final(self)@, ring: final(ring)@, effects: e },
            ),
    {
        let ghost before = bin.log();
        assert(before == before + trash::since(before, before));
        match action {
            Action::Next => self.step(1, now, ring),
            Action::Prev => self.step(-1, now, ring),
            Action::Skip(n) => self.step(n, now, ring),
            Action::First => self.select(0, now, ring),
            Action::Last => {
                let last: usize = if self.groups.len() == 0 {
                    0
                } else {
                    self.groups.len() - 1
                };
                self.select(last, now, ring)
            },
            Action::Delete => self.arm_delete(meta, on_disk),
            Action::ConfirmDelete => self.confirm_delete(bin, ring),
            Action::Cancel => {
                if self.pending_delete.is_some() {
                    self.pending_delete = None;
                    self.status = String::from_str("delete cancelled");
                }
                Effects::redraw(Layout::Keep)
            },
            Action::Undo => {
                let e = self.undo(bin);
                assert(undoes(
                    trash::since(before, bin.log()),
                    old(self)@,
                    ring@,
                    Outcome { app: self@, ring: ring@, effects: e },
                ));
                e
            },
            Action::ToggleFitMode => {
                self.fit_mode = self.fit_mode.toggled();
                self.say_mode();
                // Toggling into refit applies immediately, so the effect is visible.
                if self.fit_mode == FitMode::Refit {
                    Effects::redraw(self.fitted())
                } else {
                    Effects::redraw(Layout::Keep)
                }
            },
            Action::Fit => Effects::redraw(self.fitted()),
            Action::ActualSize => {
                let (width, height) = self.displayed();
                // Asking for 1:1 is manual control too: navigating away should not silently
                // discard it.
                self.take_manual_control();
                Effects::redraw(Layout::ActualSize { width, height })
            },
        }
    }
}

/// The state and the ring are in step: the selection is one of the groups, a delete is only ever
/// armed for the selected one, the list is the tree flattened, the ring runs over the files to
/// show, and no more can be undone than the limit allows.
pub open spec fn in_step(a: AppFacts, r: Ring) -> bool {
    &&& a.groups.len() <= usize::MAX
    &&& a.index == clamped(a.index as int, a.groups.len())
    &&& a.pending_delete is Some ==> a.pending_delete == Some(a.index) && a.index < a.groups.len()
    &&& a.groups == scan::flat(a.dirs)
    &&& tree::tidy(a.dirs)
    &&& r.paths == display_paths(a.groups)
    &&& a.undo_limit > 0 ==> a.history.len() <= a.undo_limit
}

/// The app starts in step.
pub proof fn law_starts_in_step(root: Seq<char>, radius: usize)
    ensures
        in_step(no_library(root, radius), no_images(radius)),
{
    assert(display_paths(Seq::empty()) == Seq::<Seq<char>>::empty());
    assert(scan::flat(Seq::empty()) == Seq::<GroupFacts>::empty());
}

/// Taking in a tidy tree leaves everything in step.
pub proof fn law_scan_leaves_in_step(a: AppFacts, r: Ring, dirs: Seq<DirFacts>)
    requires
        in_step(a, r),
        tree::tidy(dirs),
        scan::flat(dirs).len() <= usize::MAX,
    ensures
        in_step(adopted(a, r, dirs).app, adopted(a, r, dirs).ring),
        in_step(rescanned(a, r, dirs).app, rescanned(a, r, dirs).ring),
{
}

/// Navigation, settling and warming up stay in step too.
pub proof fn law_navigation_stays_in_step(a: AppFacts, r: Ring, index: int, delta: int, now: u64)
    requires
        in_step(a, r),
    ensures
        in_step(selected(a, r, index, now).app, selected(a, r, index, now).ring),
        in_step(stepped(a, r, delta, now).app, stepped(a, r, delta, now).ring),
        in_step(settled(a, r, now).app, settled(a, r, now).ring),
        in_step(opened(a, r).app, opened(a, r).ring),
{
}

proof fn lemma_deleted_in_step(a: AppFacts, r: Ring, d: DeletionFacts)
    requires
        in_step(a, r),
        a.index < a.groups.len(),
    ensures
        in_step(deleted(a, r, d).app, deleted(a, r, d).ring),
{
    tree::law_tree_stays_in_step(a.dirs, a.index as int);
}

proof fn lemma_confirmed_in_step(calls: Seq<Call>, a: AppFacts, r: Ring, out: Outcome)
    requires
        in_step(a, r),
        confirms(calls, a, r, out),
    ensures
        in_step(out.app, out.ring),
{
    if a.pending_delete is Some {
        let g = a.groups[a.index as int];
        let d = choose|d: DeletionFacts|
            {
                &&& #[trigger] trash::deletes(g.stem, member_paths(g), calls, d)
                &&& out == deleted(a, r, d)
            };
        lemma_deleted_in_step(a, r, d);
    }
}

/// Nothing that the user does gets the state out of step with the ring, whatever the trash
/// makes of it.
pub proof fn law_actions_stay_in_step(
    calls: Seq<Call>,
    known: Map<Seq<char>, FileMeta>,
    on_disk: u64,
    a: AppFacts,
    r: Ring,
    action: Action,
    now: u64,
    out: Outcome,
)
    requires
        in_step(a, r),
        acts(calls, known, on_disk, a, r, action, now, out),
    ensures
        in_step(out.app, out.ring),
{
    match action {
        Action::Next => law_navigation_stays_in_step(a, r, 0, 1, now),
        Action::Prev => law_navigation_stays_in_step(a, r, 0, -1, now),
        Action::Skip(n) => law_navigation_stays_in_step(a, r, 0, n as int, now),
        Action::First => law_navigation_stays_in_step(a, r, 0, 0, now),
        Action::Last => law_navigation_stays_in_step(a, r, last_index(a.groups.len()), 0, now),
        Action::ConfirmDelete => lemma_confirmed_in_step(calls, a, r, out),
        _ => {},
    }
}

/// The selection keeps up with every step and stops at the ends: it never wraps around.
pub proof fn law_steps_stop_at_the_ends(a: AppFacts, r: Ring, delta: int, now: u64)
    requires
        in_step(a, r),
    ensures
        stepped(a, r, delta, now).app.index == clamped(a.index + delta, a.groups.len()),
{
}

/// Moving on disarms a delete, so an Enter meant for something else cannot delete the wrong
/// group.
pub proof fn law_moving_disarms(a: AppFacts, r: Ring, index: int, delta: int, now: u64)
    requires
        in_step(a, r),
    ensures
        ({
            let o = selected(a, r, index, now).app;
            o.index != a.index ==> o.pending_delete is None
        }),
        ({
            let o = stepped(a, r, delta, now).app;
            o.index != a.index ==> o.pending_delete is None
        }),
{
}

proof fn lemma_navigation_keeps_the_list(
    a: AppFacts,
    r: Ring,
    index: int,
    delta: int,
    now: u64,
)
    ensures
        ({
            let o = selected(a, r, index, now).app;
            &&& o.groups == a.groups
            &&& o.dirs == a.dirs
            &&& o.history == a.history
            &&& o.root == a.root
        }),
        ({
            let o = stepped(a, r, delta, now).app;
            &&& o.groups == a.groups
            &&& o.dirs == a.dirs
            &&& o.history == a.history
            &&& o.root == a.root
        }),
{
}

proof fn lemma_confirmed_list(calls: Seq<Call>, a: AppFacts, r: Ring, out: Outcome)
    requires
        confirms(calls, a, r, out),
    ensures
        out.app.groups != a.groups || out.app.dirs != a.dirs || out.app.history != a.history
            ==> a.pending_delete == Some(a.index),
        out.app.groups != a.groups || out.app.dirs != a.dirs ==> out.app.groups == a.groups.remove(
            a.index as int,
        ),
{
    if a.pending_delete == Some(a.index) && a.current() is Some {
        let g = a.groups[a.index as int];
        let d = choose|d: DeletionFacts|
            {
                &&& #[trigger] trash::deletes(g.stem, member_paths(g), calls, d)
                &&& out == deleted(a, r, d)
            };
        assert(out == deleted(a, r, d));
    }
}

/// Only a confirmation takes a group off the list, and only the one that was armed for it and
/// is still selected. Nothing else touches the list, the tree or, but for undo, the history.
pub proof fn law_only_the_armed_group_is_deleted(
    calls: Seq<Call>,
    known: Map<Seq<char>, FileMeta>,
    on_disk: u64,
    a: AppFacts,
    r: Ring,
    action: Action,
    now: u64,
    out: Outcome,
)
    requires
        acts(calls, known, on_disk, a, r, action, now, out),
    ensures
        out.app.groups != a.groups || out.app.dirs != a.dirs ==> {
            &&& action == Action::ConfirmDelete
            &&& a.pending_delete == Some(a.index)
            &&& out.app.groups == a.groups.remove(a.index as int)
        },
        out.app.history != a.history ==> action == Action::Undo || (action
            == Action::ConfirmDelete && a.pending_delete == Some(a.index)),
        action == Action::ConfirmDelete && a.pending_delete is None ==> out == (Outcome {
            app: a,
            ring: r,
            effects: Effects::nothing(),
        }),
{
    match action {
        Action::Next => lemma_navigation_keeps_the_list(a, r, 0, 1, now),
        Action::Prev => lemma_navigation_keeps_the_list(a, r, 0, -1, now),
        Action::Skip(n) => lemma_navigation_keeps_the_list(a, r, 0, n as int, now),
        Action::First => lemma_navigation_keeps_the_list(a, r, 0, 0, now),
        Action::Last => lemma_navigation_keeps_the_list(a, r, last_index(a.groups.len()), 0, now),
        Action::ConfirmDelete => lemma_confirmed_list(calls, a, r, out),
        _ => {},
    }
}

/// A confirmed delete of files that all went to the trash, or were gone already, takes exactly
/// the group off the list, and the selection stays where it was or moves back to the new end.
pub proof fn law_clean_delete_advances(a: AppFacts, r: Ring, d: DeletionFacts)
    requires
        in_step(a, r),
        a.index < a.groups.len(),
        d.failed.len() == 0,
    ensures
        ({
            let o = deleted(a, r, d).app;
            &&& o.groups == a.groups.remove(a.index as int)
            &&& o.groups == scan::flat(o.dirs)
            &&& o.index == clamped(a.index as int, o.groups.len())
            &&& a.index + 1 < a.groups.len() ==> o.groups[o.index as int] == a.groups[a.index + 1]
            &&& !(o.pending_delete is Some)
        }),
{
    tree::law_tree_stays_in_step(a.dirs, a.index as int);
}

/// A delete that is confirmed, and to which the trash raises no objection, sends each file of the
/// armed group once and in order and nothing else; takes exactly that group off the list; and
/// can be undone. It leaves the selection where it was, or at the new end.
pub proof fn law_confirmed_delete_takes_the_whole_group(
    calls: Seq<Call>,
    known: Map<Seq<char>, FileMeta>,
    on_disk: u64,
    a: AppFacts,
    r: Ring,
    now: u64,
    out: Outcome,
)
    requires
        in_step(a, r),
        a.pending_delete == Some(a.index),
        a.groups[a.index as int].members.len() > 0,
        acts(calls, known, on_disk, a, r, Action::ConfirmDelete, now, out),
        trash::untroubled(calls),
    ensures
        trash::sent_paths(calls) == member_paths(a.groups[a.index as int]),
        trash::restored_paths(calls) == Seq::<Seq<char>>::empty(),
        out.app.groups == a.groups.remove(a.index as int),
        out.app.index == clamped(a.index as int, (a.groups.len() - 1) as nat),
        out.app.history.last().trashed == member_paths(a.groups[a.index as int]),
        out.app.history.len() == (if a.undo_limit > 0 && a.history.len() == a.undo_limit {
            a.history.len()
        } else {
            a.history.len() + 1
        }),
        out.app.pending_delete is None,
        out.effects.tree_changed && out.effects.image_changed && out.effects.redraw,
{
    let g = a.groups[a.index as int];
    let paths = member_paths(g);
    let d = choose|d: DeletionFacts|
        {
            &&& #[trigger] trash::deletes(g.stem, paths, calls, d)
            &&& out == deleted(a, r, d)
        };
    let attempts = choose|attempts: Seq<trash::Attempt>|
        {
            &&& attempts.len() == paths.len()
            &&& calls == #[trigger] trash::trace(paths, attempts)
            &&& d == trash::tally(g.stem, paths, trash::fates(attempts))
        };
    trash::law_untroubled_delete_trashes_everything(g.stem, paths, attempts);
    trash::law_undo_takes_the_newest(a.history, a.undo_limit, d);
    law_clean_delete_advances(a, r, d);
    assert(out.app.history == trash::recorded(a.history, a.undo_limit, d));
}

/// A delete that could not be carried out leaves the list as it was.
pub proof fn law_failed_delete_keeps_the_group(a: AppFacts, r: Ring, d: DeletionFacts)
    requires
        d.failed.len() > 0,
    ensures
        ({
            let o = deleted(a, r, d);
            &&& o.app.groups == a.groups
            &&& o.app.dirs == a.dirs
            &&& o.app.index == a.index
            &&& o.ring == r
        }),
{
}

/// Deleting a group and undoing it hands the trash exactly the files that it took, and leaves
/// the rest of the history as it was, but for the oldest entry where that had to go.
pub proof fn law_undo_follows_delete(
    calls: Seq<Call>,
    a: AppFacts,
    r: Ring,
    d: DeletionFacts,
    out: Outcome,
)
    requires
        in_step(a, r),
        a.index < a.groups.len(),
        d.trashed.len() > 0,
        undoes(calls, deleted(a, r, d).app, deleted(a, r, d).ring, out),
    ensures
        out.app.history == (if a.undo_limit > 0 && a.history.len() == a.undo_limit {
            a.history.drop_first()
        } else {
            a.history
        }),
        out.effects.rescan,
        exists|s: trash::RestoreFacts| #[trigger]
            trash::restores(d, calls, s) && out.app.status == s.summary(),
{
    let b = deleted(a, r, d).app;
    assert(b.history == trash::recorded(a.history, a.undo_limit, d));
    assert(b.history.last() == d);
    assert(a.history.push(d).drop_last() == a.history);
    assert(a.history.len() > 0 ==> a.history.push(d).drop_first().drop_last()
        == a.history.drop_first());
    let s = choose|s: trash::RestoreFacts|
        {
            &&& #[trigger] trash::restores(b.history.last(), calls, s)
            &&& out.app == (AppFacts {
                history: b.history.drop_last(),
                status: s.summary(),
                ..b
            })
        };
    assert(trash::restores(d, calls, s));
}

/// While a key is held and the decode target may not move yet, the selection moves and nothing
/// else: neither the ring nor what is on screen.
pub proof fn law_held_key_throttles_the_decoders(a: AppFacts, r: Ring, index: int, now: u64)
    requires
        in_step(a, r),
        a.fast_scroll,
        a.last_retarget is Some,
        elapsed(now, a.last_retarget->0) < PREFETCH_THROTTLE,
    ensures
        ({
            let o = selected(a, r, index, now);
            &&& o.ring == r
            &&& o.app.shown == a.shown
            &&& o.effects.layout == Layout::Keep
            &&& a.groups.len() > 0 ==> o.app.index == clamped(index, a.groups.len())
        }),
{
}

/// Two steps in quick succession are a held key, and the window shrinks for it. Steps further
/// apart never are.
pub proof fn law_quick_steps_are_a_held_key(a: AppFacts, r: Ring, delta: int, now: u64)
    requires
        in_step(a, r),
        a.groups.len() > 0,
        !a.fast_scroll,
        a.last_nav is Some,
    ensures
        ({
            let o = stepped(a, r, delta, now);
            &&& o.app.fast_scroll == (elapsed(now, a.last_nav->0) < FAST_NAV)
            &&& o.app.fast_scroll ==> o.ring.radius == FAST_RADIUS
            &&& o.app.last_nav == Some(now)
        }),
{
}

/// Once navigation has been quiet, the full window is back around the image that was landed on.
pub proof fn law_settling_restores_the_window(a: AppFacts, r: Ring, now: u64)
    requires
        in_step(a, r),
        a.fast_scroll,
        is_quiet(a, now),
    ensures
        ({
            let o = settled(a, r, now);
            &&& !o.app.fast_scroll
            &&& o.ring.radius == a.radius
            &&& o.ring.centre == a.index
            &&& o.effects.redraw
            &&& forall|i: usize| #[trigger]
                o.ring.in_window(i) ==> o.ring.slots.contains_key(i)
            &&& a.groups.len() > 0 ==> o.ring.in_window(a.index)
        }),
{
}

/// Until something is on screen only the first image is decoded.
pub proof fn law_startup_warms_only_the_first(a: AppFacts, r: Ring, dirs: Seq<DirFacts>, i: usize)
    requires
        scan::flat(dirs).len() > 0,
    ensures
        ({
            let o = adopted(a, r, dirs);
            &&& o.ring.state(0) == State::Queued
            &&& i > 0 ==> o.ring.state(i) == State::Absent
            &&& !o.app.warmed
        }),
{
}

/// Opening the window a second time changes nothing.
pub proof fn law_warming_twice_is_harmless(a: AppFacts, r: Ring)
    ensures
        ({
            let o = opened(a, r);
            opened(o.app, o.ring) == (Outcome { effects: Effects::nothing(), ..o })
        }),
        !a.warmed ==> opened(a, r).ring.radius == a.radius,
{
}

/// Touching the view by hand leaves refit mode, so that a single toggle refits.
pub proof fn law_one_toggle_refits(
    calls: Seq<Call>,
    known: Map<Seq<char>, FileMeta>,
    on_disk: u64,
    a: AppFacts,
    r: Ring,
    now: u64,
    out: Outcome,
)
    requires
        acts(calls, known, on_disk, a.by_hand(), r, Action::ToggleFitMode, now, out),
    ensures
        a.by_hand().fit_mode == FitMode::Preserve,
        out.app.fit_mode == FitMode::Refit,
        out.effects.layout == a.fit(),
{
}

/// Moving to another image fits it to the window in refit mode, and keeps zoom and pan otherwise,
/// so that the same region of two frames can be compared.
pub proof fn law_mode_decides_the_layout(a: AppFacts, r: Ring, index: int, now: u64)
    ensures
        ({
            let layout = selected(a, r, index, now).effects.layout;
            match a.fit_mode {
                FitMode::Refit => layout is Keep || layout is Fit,
                FitMode::Preserve => layout is Keep || layout is Clamp,
            }
        }),
{
}

/// The selection survives a rescan wherever its group does.
pub proof fn law_rescan_keeps_the_selection(a: AppFacts, r: Ring, dirs: Seq<DirFacts>, k: int)
    requires
        in_step(a, r),
        a.index < a.groups.len(),
        scan::flat(dirs).len() <= usize::MAX,
        0 <= k < scan::flat(dirs).len(),
        path::canonical(scan::flat(dirs)[k].dir) == path::canonical(a.groups[a.index as int].dir),
        scan::flat(dirs)[k].stem == a.groups[a.index as int].stem,
    ensures
        ({
            let o = rescanned(a, r, dirs).app;
            &&& o.index < o.groups.len()
            &&& path::canonical(o.groups[o.index as int].dir) == path::canonical(
                a.groups[a.index as int].dir,
            )
            &&& o.groups[o.index as int].stem == a.groups[a.index as int].stem
        }),
{
    let g = a.groups[a.index as int];
    tree::law_group_is_found_again(scan::flat(dirs), g.dir, g.stem, k);
}

/// A rescan shows what it finds, whatever was shown before: after the last group was deleted and
/// the delete undone, the group is back and selected.
pub proof fn law_rescan_shows_what_is_there(a: AppFacts, r: Ring, dirs: Seq<DirFacts>)
    requires
        in_step(a, r),
        scan::flat(dirs).len() <= usize::MAX,
    ensures
        rescanned(a, r, dirs).app.groups == scan::flat(dirs),
        scan::flat(dirs).len() > 0 ==> rescanned(a, r, dirs).app.current() is Some,
        a.groups.len() == 0 && scan::flat(dirs).len() > 0 ==> rescanned(a, r, dirs).app.current()
            == Some(scan::flat(dirs)[0]),
{
}

proof fn lemma_confirmed_root(calls: Seq<Call>, a: AppFacts, r: Ring, out: Outcome)
    requires
        confirms(calls, a, r, out),
    ensures
        out.app.root == a.root,
{
    if a.pending_delete == Some(a.index) && a.current() is Some {
        let g = a.groups[a.index as int];
        let d = choose|d: DeletionFacts|
            {
                &&& #[trigger] trash::deletes(g.stem, member_paths(g), calls, d)
                &&& out == deleted(a, r, d)
            };
        assert(out == deleted(a, r, d));
    }
}

/// The directory that a rescan reads is the one that was given to start with: no action changes
/// it.
pub proof fn law_root_is_kept(
    calls: Seq<Call>,
    known: Map<Seq<char>, FileMeta>,
    on_disk: u64,
    a: AppFacts,
    r: Ring,
    action: Action,
    now: u64,
    out: Outcome,
)
    requires
        acts(calls, known, on_disk, a, r, action, now, out),
    ensures
        out.app.root == a.root,
{
    match action {
        Action::Next => lemma_navigation_keeps_the_list(a, r, 0, 1, now),
        Action::Prev => lemma_navigation_keeps_the_list(a, r, 0, -1, now),
        Action::Skip(n) => lemma_navigation_keeps_the_list(a, r, 0, n as int, now),
        Action::First => lemma_navigation_keeps_the_list(a, r, 0, 0, now),
        Action::Last => lemma_navigation_keeps_the_list(a, r, last_index(a.groups.len()), 0, now),
        Action::ConfirmDelete => lemma_confirmed_root(calls, a, r, out),
        _ => {},
    }
}

/// No scan or rescan changes it either.
pub proof fn law_scanning_keeps_the_root(a: AppFacts, r: Ring, dirs: Seq<DirFacts>, now: u64)
    ensures
        adopted(a, r, dirs).app.root == a.root,
        rescanned(a, r, dirs).app.root == a.root,
        settled(a, r, now).app.root == a.root,
        opened(a, r).app.root == a.root,
{
}

/// Deleting takes two keystrokes: the trash is touched by nothing but a confirmation of a delete
/// that was armed for the selected group, and by undo. The confirmation sends only that group's
/// files, each that is there exactly once and in order, and restores nothing; undo restores
/// exactly the files that the newest deletion moved, and sends nothing.
pub proof fn law_only_confirmed_deletes_reach_the_trash(
    calls: Seq<Call>,
    known: Map<Seq<char>, FileMeta>,
    on_disk: u64,
    a: AppFacts,
    r: Ring,
    action: Action,
    now: u64,
    out: Outcome,
)
    requires
        acts(calls, known, on_disk, a, r, action, now, out),
    ensures
        calls.len() > 0 ==> {
            ||| action == Action::Undo && a.history.len() > 0
            ||| action == Action::ConfirmDelete && a.pending_delete == Some(a.index)
                && a.current() is Some
        },
        action == Action::ConfirmDelete && calls.len() > 0 ==> {
            &&& trash::restored_paths(calls) == Seq::<Seq<char>>::empty()
            &&& exists|attempts: Seq<trash::Attempt>|
                attempts.len() == a.current()->0.members.len() && trash::sent_paths(calls)
                    == #[trigger] trash::present(member_paths(a.current()->0), attempts)
        },
        action == Action::Undo && a.history.len() > 0 ==> {
            &&& trash::sent_paths(calls) == Seq::<Seq<char>>::empty()
            &&& trash::restored_paths(calls) == a.history.last().trashed
        },
{
    if action == Action::ConfirmDelete && calls.len() > 0 {
        let g = a.groups[a.index as int];
        let d = choose|d: DeletionFacts|
            {
                &&& #[trigger] trash::deletes(g.stem, member_paths(g), calls, d)
                &&& out == deleted(a, r, d)
            };
        let attempts = choose|attempts: Seq<trash::Attempt>|
            {
                &&& attempts.len() == member_paths(g).len()
                &&& calls == #[trigger] trash::trace(member_paths(g), attempts)
                &&& d == trash::tally(g.stem, member_paths(g), trash::fates(attempts))
            };
        trash::law_each_present_file_is_sent_once(member_paths(g), attempts);
    }
    if action == Action::Undo && a.history.len() > 0 {
        let d = a.history.last();
        let s = choose|s: trash::RestoreFacts|
            {
                &&& #[trigger] trash::restores(d, calls, s)
                &&& out.app.status == s.summary()
            };
        let errors = choose|errors: Seq<Option<Seq<char>>>|
            {
                &&& errors.len() == d.trashed.len()
                &&& calls == #[trigger] trash::restore_trace(d.trashed, errors)
                &&& s == trash::restore_tally(d.stem, d.trashed, errors)
            };
        trash::law_each_trashed_file_is_restored_once(d.trashed, errors);
    }
}

/// The image that is selected is laid out from its header before any pixels exist: at once
/// where the header has been read, and as soon as it has been read otherwise.
pub proof fn law_layout_comes_from_the_header(a: AppFacts, index: usize, found: (u32, u32, u16))
    requires
        index < a.groups.len(),
        a.groups[index as int].display_path() is Some,
    ensures
        ({
            let (b, layout) = a.laid_out(index);
            if a.probed.contains_key(index) {
                &&& b.shown is Some
                &&& b.shown->0.index == index
                &&& b.shown->0.stored == (a.probed[index].0, a.probed[index].1)
                &&& layout == b.by_mode()
            } else {
                let (c, later) = b.answered(Some(found));
                &&& c.shown is Some
                &&& c.shown->0.index == index
                &&& c.shown->0.stored == (found.0, found.1)
                &&& later == c.by_mode()
                &&& c.laid_out(index) == (c, later)
            }
        }),
{
}

/// What navigation does to everything but the window.
spec fn navigated(a: AppFacts, out: Outcome) -> bool {
    &&& out.app.groups == a.groups
    &&& out.app.dirs == a.dirs
    &&& out.app.history == a.history
    &&& out.app.fit_mode == a.fit_mode
    &&& out.app.status == a.status || out.app.shown != a.shown
    &&& out.app.probed == a.probed
    &&& out.app.radius == a.radius
    &&& out.app.warmed == a.warmed
    &&& !out.effects.tree_changed && !out.effects.rescan && !out.effects.stat_files
    &&& out.effects.redraw == out.effects.image_changed
    &&& out.effects.redraw <==> (out.app.index != a.index || a.shown is None)
    &&& out.app.index != a.index ==> out.app.pending_delete is None
    &&& out.app.index == a.index && a.shown is Some ==> out.app.pending_delete
        == a.pending_delete
}

proof fn lemma_selected_one(a: AppFacts, r: Ring, index: int, now: u64)
    requires
        a.index < a.groups.len() <= usize::MAX,
    ensures
        navigated(a, selected(a, r, index, now)),
        ({
            let i = selected(a, r, index, now).app.index;
            &&& 0 <= index < a.groups.len() ==> i == index
            &&& index < 0 ==> i == 0
            &&& index >= a.groups.len() ==> i == a.groups.len() - 1
        }),
{
}

proof fn lemma_stepped_by(a: AppFacts, r: Ring, delta: int, now: u64)
    requires
        a.index < a.groups.len() <= usize::MAX,
    ensures
        navigated(a, stepped(a, r, delta, now)),
        ({
            let i = stepped(a, r, delta, now).app.index;
            &&& 0 <= a.index + delta < a.groups.len() ==> i == a.index + delta
            &&& a.index + delta < 0 ==> i == 0
            &&& a.index + delta >= a.groups.len() ==> i == a.groups.len() - 1
        }),
{
    let b = AppFacts { last_nav: Some(now), ..a };
    let target = clamped(a.index + delta, a.groups.len());
    lemma_selected_one(b, r, target, now);
    let c = AppFacts { fast_scroll: true, ..b };
    lemma_selected_one(c, resized(r, FAST_RADIUS, target as usize), target, now);
}

/// The keys do what they say: forward is one on, back is one back, a jump goes as far as it says,
/// and all of them stop at the ends. Home and End go to the first and the last group. Whenever
/// the selection moves, another image is drawn; no other key but a confirmed delete moves it.
pub proof fn law_keys_move_the_selection(
    calls: Seq<Call>,
    known: Map<Seq<char>, FileMeta>,
    on_disk: u64,
    a: AppFacts,
    r: Ring,
    action: Action,
    now: u64,
    out: Outcome,
)
    requires
        acts(calls, known, on_disk, a, r, action, now, out),
        a.index < a.groups.len() <= usize::MAX,
    ensures
        action == Action::Next && a.index + 1 < a.groups.len() ==> out.app.index == a.index + 1,
        action == Action::Next && a.index + 1 == a.groups.len() ==> out.app.index == a.index,
        action == Action::Prev && a.index > 0 ==> out.app.index == a.index - 1,
        action == Action::Prev && a.index == 0 ==> out.app.index == 0,
        action matches Action::Skip(n) ==> {
            &&& 0 <= a.index + n < a.groups.len() ==> out.app.index == a.index + n
            &&& a.index + n < 0 ==> out.app.index == 0
            &&& a.index + n >= a.groups.len() ==> out.app.index == a.groups.len() - 1
        },
        action == Action::First ==> out.app.index == 0,
        action == Action::Last ==> out.app.index == a.groups.len() - 1,
        action is Next || action is Prev || action is Skip || action is First || action is Last
            ==> {
            &&& out.app.groups == a.groups
            &&& out.app.dirs == a.dirs
            &&& out.app.history == a.history
            &&& out.app.fit_mode == a.fit_mode
            &&& out.app.status == a.status || out.app.shown != a.shown
            &&& out.app.probed == a.probed
            &&& out.app.radius == a.radius
            &&& out.app.warmed == a.warmed
            &&& !out.effects.tree_changed && !out.effects.rescan && !out.effects.stat_files
            &&& out.effects.redraw == out.effects.image_changed
            &&& out.effects.redraw <==> (out.app.index != a.index || a.shown is None)
            &&& out.app.index != a.index ==> out.app.pending_delete is None
            &&& out.app.index == a.index && a.shown is Some ==> out.app.pending_delete
                == a.pending_delete
        },
        action is Delete || action is Undo || action is Cancel || action is ToggleFitMode
            || action is Fit || action is ActualSize ==> {
            &&& out.app.index == a.index
            &&& out.app.groups == a.groups
            &&& out.app.shown == a.shown
            &&& out.ring == r
            &&& out.effects.redraw
            &&& !out.effects.image_changed && !out.effects.tree_changed && !out.effects.stat_files
            &&& out.effects.rescan == (action is Undo && a.history.len() > 0)
        },
{
    match action {
        Action::Next => lemma_stepped_by(a, r, 1, now),
        Action::Prev => lemma_stepped_by(a, r, -1, now),
        Action::Skip(n) => lemma_stepped_by(a, r, n as int, now),
        Action::First => lemma_selected_one(a, r, 0, now),
        Action::Last => lemma_selected_one(a, r, a.groups.len() - 1, now),
        _ => {},
    }
}

/// Back undoes forward and forward undoes back, wherever there was room to move.
pub proof fn law_back_undoes_forward(
    known: Map<Seq<char>, FileMeta>,
    on_disk: u64,
    a: AppFacts,
    r: Ring,
    now: u64,
    there: Outcome,
    later: u64,
    back: Outcome,
)
    requires
        a.index < a.groups.len() <= usize::MAX,
    ensures
        a.index + 1 < a.groups.len() && acts(
            Seq::empty(),
            known,
            on_disk,
            a,
            r,
            Action::Next,
            now,
            there,
        ) && acts(
            Seq::empty(),
            known,
            on_disk,
            there.app,
            there.ring,
            Action::Prev,
            later,
            back,
        ) ==> back.app.index == a.index && there.app.index != a.index,
        a.index > 0 && acts(Seq::empty(), known, on_disk, a, r, Action::Prev, now, there) && acts(
            Seq::empty(),
            known,
            on_disk,
            there.app,
            there.ring,
            Action::Next,
            later,
            back,
        ) ==> back.app.index == a.index && there.app.index != a.index,
{
    let none = Seq::<Call>::empty();
    if acts(none, known, on_disk, a, r, Action::Next, now, there) {
        law_keys_move_the_selection(none, known, on_disk, a, r, Action::Next, now, there);
    }
    if acts(none, known, on_disk, a, r, Action::Prev, now, there) {
        law_keys_move_the_selection(none, known, on_disk, a, r, Action::Prev, now, there);
    }
    if there.app.groups == a.groups && there.app.index < a.groups.len() {
        let (b, q) = (there.app, there.ring);
        if acts(none, known, on_disk, b, q, Action::Next, later, back) {
            law_keys_move_the_selection(none, known, on_disk, b, q, Action::Next, later, back);
        }
        if acts(none, known, on_disk, b, q, Action::Prev, later, back) {
            law_keys_move_the_selection(none, known, on_disk, b, q, Action::Prev, later, back);
        }
    }
}

/// A key that is tapped takes the window along: it is centred on the selection, reaches as far
/// as before, and everything in it is there or on its way.
pub proof fn law_window_follows_the_selection(
    calls: Seq<Call>,
    known: Map<Seq<char>, FileMeta>,
    on_disk: u64,
    a: AppFacts,
    r: Ring,
    action: Action,
    now: u64,
    out: Outcome,
)
    requires
        acts(calls, known, on_disk, a, r, action, now, out),
        a.index < a.groups.len() <= usize::MAX,
        r.paths.len() == a.groups.len(),
        action is Next || action is Prev || action is Skip || action is First || action is Last,
        out.app.index != a.index,
        !out.app.fast_scroll,
    ensures
        out.ring.centre == out.app.index,
        out.ring.radius == r.radius,
        out.ring.paths == r.paths,
        out.ring.hint == r.hint,
        out.ring.epoch == r.epoch,
        out.ring.slots.contains_key(out.app.index),
        forall|i: usize|
            i < a.groups.len() && i <= out.app.index + r.radius && out.app.index <= i + r.radius
                ==> #[trigger] out.ring.slots.contains_key(i),
        forall|i: usize|
            r.slots.contains_key(i) && #[trigger] out.ring.slots.contains_key(i)
                ==> out.ring.slots[i] == r.slots[i],
        forall|i: usize|
            !r.slots.contains_key(i) && #[trigger] out.ring.slots.contains_key(i)
                ==> out.ring.slots[i] is Queued,
{
}

/// Two steps less than 90 ms apart are a held key, and the window shrinks to one image either
/// side; slower steps never are. While the key is held the decoders are pointed at another image
/// at most every 250 ms, and only then is it laid out; the selection moves all the same.
pub proof fn law_held_key_is_told_by_the_clock(
    calls: Seq<Call>,
    known: Map<Seq<char>, FileMeta>,
    on_disk: u64,
    a: AppFacts,
    r: Ring,
    action: Action,
    now: u64,
    out: Outcome,
)
    requires
        acts(calls, known, on_disk, a, r, action, now, out),
        a.index < a.groups.len() <= usize::MAX,
        r.paths.len() == a.groups.len(),
        action is Next || action is Prev || action is Skip,
        a.last_nav is Some ==> a.last_nav->0 <= now,
        a.last_retarget is Some ==> a.last_retarget->0 <= now,
    ensures
        out.app.last_nav == Some(now),
        !a.fast_scroll && a.last_nav is None ==> !out.app.fast_scroll && out.ring.radius
            == r.radius,
        !a.fast_scroll && a.last_nav is Some && now - a.last_nav->0 >= 90_000_000
            ==> !out.app.fast_scroll && out.ring.radius == r.radius,
        !a.fast_scroll && a.last_nav is Some && now - a.last_nav->0 < 90_000_000 ==> {
            &&& out.app.fast_scroll
            &&& out.ring.radius == 1
            &&& out.ring.centre == out.app.index
        },
        a.fast_scroll ==> out.app.fast_scroll && out.ring.radius == r.radius,
        a.fast_scroll && a.last_retarget is Some && now - a.last_retarget->0 < 250_000_000 ==> {
            &&& out.ring == r
            &&& out.app.shown == a.shown
            &&& out.app.to_probe == a.to_probe
            &&& out.app.last_retarget == a.last_retarget
            &&& out.effects.layout == Layout::Keep
        },
        a.fast_scroll && out.app.index != a.index && (a.last_retarget is None || now
            - a.last_retarget->0 >= 250_000_000) ==> {
            &&& out.ring.centre == out.app.index
            &&& out.ring.slots.contains_key(out.app.index)
            &&& out.app.last_retarget == Some(now)
        },
{
}

/// Once 140 ms have passed since the last step, the window is back at its full radius around the
/// selection and everything in it is there or on its way; before that nothing happens.
pub proof fn law_settling_takes_its_time(a: AppFacts, r: Ring, now: u64)
    requires
        a.index < a.groups.len() <= usize::MAX,
        r.paths.len() == a.groups.len(),
        a.last_nav is Some,
        a.last_nav->0 <= now,
    ensures
        ({
            let o = settled(a, r, now);
            if a.fast_scroll && now - a.last_nav->0 >= 140_000_000 {
                &&& !o.app.fast_scroll
                &&& o.app.last_retarget is None
                &&& o.app.index == a.index
                &&& o.app.groups == a.groups
                &&& o.app.pending_delete == a.pending_delete
                &&& o.ring.radius == a.radius
                &&& o.ring.centre == a.index
                &&& o.ring.slots.contains_key(a.index)
                &&& forall|i: usize|
                    i < a.groups.len() && i <= a.index + a.radius && a.index <= i + a.radius
                        ==> #[trigger] o.ring.slots.contains_key(i)
                &&& o.effects.redraw && o.effects.image_changed && !o.effects.tree_changed
            } else {
                &&& o.app == a
                &&& o.ring == r
                &&& !o.effects.redraw && !o.effects.image_changed && !o.effects.tree_changed
                &&& o.effects.layout == Layout::Keep
            }
        }),
{
}

/// Fitting shows the whole of the image on screen, whatever the mode, and changes nothing else.
/// Actual size shows it pixel for pixel, and from then on zoom and pan are kept.
pub proof fn law_fit_shows_the_whole_image(
    calls: Seq<Call>,
    known: Map<Seq<char>, FileMeta>,
    on_disk: u64,
    a: AppFacts,
    r: Ring,
    now: u64,
    s: ShownFacts,
    out: Outcome,
)
    requires
        a.shown == Some(s),
    ensures
        acts(calls, known, on_disk, a, r, Action::Fit, now, out) ==> {
            &&& out.effects.layout == (Layout::Fit {
                width: s.displayed.0,
                height: s.displayed.1,
            })
            &&& out.effects.redraw
            &&& !out.effects.image_changed && !out.effects.tree_changed && !out.effects.rescan
            &&& out.app == a
            &&& out.ring == r
        },
        acts(calls, known, on_disk, a, r, Action::ActualSize, now, out) ==> {
            &&& out.effects.layout == (Layout::ActualSize {
                width: s.displayed.0,
                height: s.displayed.1,
            })
            &&& out.effects.redraw
            &&& !out.effects.image_changed && !out.effects.tree_changed && !out.effects.rescan
            &&& out.app.fit_mode == FitMode::Preserve
            &&& a.fit_mode == FitMode::Preserve ==> out.app == a
            &&& out.app == (AppFacts {
                fit_mode: out.app.fit_mode,
                status: out.app.status,
                ..a
            })
            &&& out.ring == r
        },
{
}

/// The mode has two values and the toggle changes from one to the other: fitting again at once
/// where it leads to that, and leaving the view alone where it does not. Two toggles cancel out.
pub proof fn law_two_toggles_cancel_out(
    known: Map<Seq<char>, FileMeta>,
    on_disk: u64,
    a: AppFacts,
    r: Ring,
    now: u64,
    s: ShownFacts,
    once: Outcome,
    later: u64,
    twice: Outcome,
)
    requires
        a.shown == Some(s),
        acts(Seq::empty(), known, on_disk, a, r, Action::ToggleFitMode, now, once),
        acts(
            Seq::empty(),
            known,
            on_disk,
            once.app,
            once.ring,
            Action::ToggleFitMode,
            later,
            twice,
        ),
    ensures
        once.app.fit_mode != a.fit_mode,
        twice.app == (AppFacts { status: twice.app.status, ..a }),
        twice.ring == r,
        once.effects.redraw && twice.effects.redraw,
        a.fit_mode == FitMode::Preserve ==> once.effects.layout == (Layout::Fit {
            width: s.displayed.0,
            height: s.displayed.1,
        }) && twice.effects.layout == Layout::Keep,
        a.fit_mode == FitMode::Refit ==> once.effects.layout == Layout::Keep
            && twice.effects.layout == (Layout::Fit {
            width: s.displayed.0,
            height: s.displayed.1,
        }),
        once.app.fit_mode == FitMode::Refit ==> once.app.status == "mode: "@ + "refit"@,
        once.app.fit_mode == FitMode::Preserve ==> once.app.status == "mode: "@ + "keep zoom"@,
{
}

/// A resized window refits the image in refit mode and only keeps zoom and pan within bounds
/// otherwise. Zooming and panning by hand do the latter in either mode, and leave refit mode.
pub proof fn law_mode_decides_what_a_resize_does(a: AppFacts, s: ShownFacts)
    requires
        a.shown == Some(s),
    ensures
        a.after_resize().redraw && !a.after_resize().image_changed
            && !a.after_resize().tree_changed,
        a.fit_mode == FitMode::Refit ==> a.after_resize().layout == (Layout::Fit {
            width: s.displayed.0,
            height: s.displayed.1,
        }),
        a.fit_mode == FitMode::Preserve ==> a.after_resize().layout == (Layout::Clamp {
            width: s.displayed.0,
            height: s.displayed.1,
        }),
        a.after_gesture().redraw && !a.after_gesture().image_changed
            && !a.after_gesture().tree_changed,
        a.after_gesture().layout == (Layout::Clamp {
            width: s.displayed.0,
            height: s.displayed.1,
        }),
        a.by_hand().fit_mode == FitMode::Preserve,
        a.by_hand() == (AppFacts {
            fit_mode: a.by_hand().fit_mode,
            status: a.by_hand().status,
            ..a
        }),
        a.fit_mode == FitMode::Preserve ==> a.by_hand() == a,
        a.fit_mode == FitMode::Refit ==> a.by_hand().status == "mode: "@ + "keep zoom"@,
{
}

/// The image on screen is as large as it is stored, with width and height exchanged where the
/// orientation turns it by a quarter; an orientation that does not exist counts as upright. It is
/// then fitted in refit mode and kept within bounds otherwise. A colour problem is reported.
pub proof fn law_turned_image_is_shown_turned(
    a: AppFacts,
    index: usize,
    w: u32,
    h: u32,
    orientation: u16,
    colour: Verdict,
)
    ensures
        ({
            let b = a.noted(index, (w, h), orientation, colour);
            let s = b.shown->0;
            let (dw, dh) = if orientation == 5 || orientation == 6 || orientation == 7
                || orientation == 8 {
                (h, w)
            } else {
                (w, h)
            };
            &&& b.shown is Some
            &&& s.index == index
            &&& s.stored == (w, h)
            &&& s.displayed == (dw, dh)
            &&& s.colour == colour
            &&& 1 <= orientation <= 8 ==> s.orientation == orientation
            &&& orientation == 0 || orientation > 8 ==> s.orientation == 1
            &&& a.fit_mode == FitMode::Refit ==> b.by_mode() == (Layout::Fit {
                width: dw,
                height: dh,
            })
            &&& a.fit_mode == FitMode::Preserve ==> b.by_mode() == (Layout::Clamp {
                width: dw,
                height: dh,
            })
            &&& colour is AssumedSrgb || colour is Srgb ==> b.status == a.status
            &&& colour is Unparsable ==> b.status == "colour: "@
                + "unreadable colour profile - shown as sRGB"@
            &&& colour matches Verdict::NotSrgb(what) ==> b.status == "colour: "@ + (what@
                + " - shown as sRGB, colours will be off"@)
            &&& b == (AppFacts { shown: b.shown, status: b.status, ..a })
        }),
{
}

/// Moving to an image whose header was read before lays it out from that at once; moving to
/// another asks for its header, and lays it out when it comes.
pub proof fn law_header_is_read_once(
    calls: Seq<Call>,
    known: Map<Seq<char>, FileMeta>,
    on_disk: u64,
    a: AppFacts,
    r: Ring,
    action: Action,
    now: u64,
    out: Outcome,
    found: (u32, u32, u16),
)
    requires
        acts(calls, known, on_disk, a, r, action, now, out),
        a.index < a.groups.len() <= usize::MAX,
        action is Next || action is Prev || action is Skip || action is First || action is Last,
        out.app.index != a.index,
        !out.app.fast_scroll,
        a.groups[out.app.index as int].display_path() is Some,
    ensures
        a.probed.contains_key(out.app.index) ==> {
            let p = a.probed[out.app.index];
            &&& out.app.to_probe is None
            &&& out.app.shown is Some
            &&& out.app.shown->0.index == out.app.index
            &&& out.app.shown->0.stored == (p.0, p.1)
            &&& out.app.shown->0.displayed == (if 5 <= p.2 <= 8 {
                (p.1, p.0)
            } else {
                (p.0, p.1)
            })
            &&& a.fit_mode == FitMode::Refit ==> out.effects.layout == (Layout::Fit {
                width: out.app.shown->0.displayed.0,
                height: out.app.shown->0.displayed.1,
            })
            &&& a.fit_mode == FitMode::Preserve ==> out.effects.layout == (Layout::Clamp {
                width: out.app.shown->0.displayed.0,
                height: out.app.shown->0.displayed.1,
            })
        },
        !a.probed.contains_key(out.app.index) ==> {
            let (b, layout) = out.app.answered(Some(found));
            let (none, keep) = out.app.answered(None);
            &&& out.app.to_probe == Some(out.app.index)
            &&& out.app.shown == a.shown
            &&& out.effects.layout == Layout::Keep
            &&& none == (AppFacts { to_probe: None, ..out.app })
            &&& keep == Layout::Keep
            &&& b.to_probe is None
            &&& b.probed == a.probed.insert(out.app.index, found)
            &&& b.shown is Some
            &&& b.shown->0.index == out.app.index
            &&& b.shown->0.stored == (found.0, found.1)
            &&& b.shown->0.displayed == (if 5 <= found.2 <= 8 {
                (found.1, found.0)
            } else {
                (found.0, found.1)
            })
            &&& a.fit_mode == FitMode::Refit ==> layout == (Layout::Fit {
                width: b.shown->0.displayed.0,
                height: b.shown->0.displayed.1,
            })
            &&& a.fit_mode == FitMode::Preserve ==> layout == (Layout::Clamp {
                width: b.shown->0.displayed.0,
                height: b.shown->0.displayed.1,
            })
        },
{
}

/// The colours of an image relabel that image and no other, and a view that was zoomed stays as
/// it is.
pub proof fn law_colours_relabel_the_image_on_screen(
    a: AppFacts,
    s: ShownFacts,
    index: usize,
    colour: Verdict,
)
    requires
        a.shown == Some(s),
    ensures
        ({
            let b = a.coloured(index, colour);
            &&& s.index != index ==> b == a
            &&& s.index == index ==> {
                &&& b.shown is Some
                &&& b.shown->0.index == s.index
                &&& b.shown->0.stored == s.stored
                &&& b.shown->0.orientation == s.orientation
                &&& b.shown->0.displayed == s.displayed
                &&& colour is AssumedSrgb ==> b.shown->0.colour is AssumedSrgb
                &&& colour is Srgb ==> b.shown->0.colour is Srgb
                &&& colour is Unparsable ==> b.shown->0.colour is Unparsable
                &&& colour matches Verdict::NotSrgb(what) ==> b.shown->0.colour is NotSrgb
                    && b.shown->0.colour->NotSrgb_0@ == what@
                &&& colour is Unparsable && !(s.colour is Unparsable) ==> b.status == "colour: "@
                    + "unreadable colour profile - shown as sRGB"@
                &&& (colour matches Verdict::NotSrgb(what) && !(s.colour is NotSrgb)) ==> b.status
                    == "colour: "@ + (colour->NotSrgb_0@
                    + " - shown as sRGB, colours will be off"@)
            }
            &&& b == (AppFacts { shown: b.shown, status: b.status, ..a })
        }),
{
}

/// Delete arms the selected group and asks, naming it, how many files it has and how many bytes
/// they hold; Escape disarms it. Neither touches anything else.
pub proof fn law_delete_asks_before_it_deletes(
    calls: Seq<Call>,
    known: Map<Seq<char>, FileMeta>,
    on_disk: u64,
    a: AppFacts,
    r: Ring,
    now: u64,
    out: Outcome,
)
    requires
        a.index < a.groups.len(),
    ensures
        acts(calls, known, on_disk, a, r, Action::Delete, now, out) ==> {
            let g = a.groups[a.index as int];
            &&& calls.len() == 0
            &&& out.app.pending_delete == Some(a.index)
            &&& out.app == (AppFacts {
                pending_delete: out.app.pending_delete,
                status: out.app.status,
                ..a
            })
            &&& out.ring == r
            &&& out.effects.redraw && out.effects.layout == Layout::Keep
            &&& (exists|i: int|
                0 <= i < g.members.len() && !known.contains_key(
                    path::canonical((#[trigger] g.members[i]).path),
                ))
                ==> out.app.status == "delete "@ + g.stem + " ("@ + text::decimal(g.members.len())
                + " files, "@ + crate::format::size_text(on_disk as nat)
                + ")? Enter to confirm, Esc to cancel"@
            &&& (g.members.len() > 0 && forall|i: int|
                0 <= i < g.members.len() ==> known.contains_key(
                    path::canonical((#[trigger] g.members[i]).path),
                )) ==> out.app.status == "delete "@ + g.stem + " ("@ + text::decimal(g.members.len())
                + " files, "@ + crate::format::size_text(scan::known_bytes(known, g.members))
                + ")? Enter to confirm, Esc to cancel"@
        },
        acts(calls, known, on_disk, a, r, Action::Cancel, now, out) ==> {
            &&& calls.len() == 0
            &&& out.app.pending_delete is None
            &&& out.app == (AppFacts {
                pending_delete: out.app.pending_delete,
                status: out.app.status,
                ..a
            })
            &&& a.pending_delete is None ==> out.app == a
            &&& a.pending_delete is Some ==> out.app.status == "delete cancelled"@
            &&& out.ring == r
            &&& out.effects.redraw && out.effects.layout == Layout::Keep
        },
{
}

/// The ring is over the list of groups: it is centred on the selection, has a slot waiting for
/// every image within its radius and for nothing else, and holds the path that each group shows.
/// Nothing is on screen or armed yet, nothing is known of any header, and that of the selected
/// image is asked for.
pub open spec fn starts_afresh(a: AppFacts, r: Ring) -> bool {
    &&& r.centre == a.index
    &&& r.paths.len() == a.groups.len()
    &&& forall|i: int|
        0 <= i < a.groups.len() && a.groups[i].display_path() is Some ==> #[trigger] r.paths[i]
            == a.groups[i].display_path()->0
    &&& forall|i: int|
        0 <= i < a.groups.len() && a.groups[i].display_path() is None ==> (#[trigger] r.paths[i]).len()
            == 0
    &&& forall|i: usize|
        i < a.groups.len() && i <= a.index + r.radius && a.index <= i + r.radius
            ==> #[trigger] r.slots.contains_key(i) && r.slots[i] is Queued
    &&& forall|i: usize| #[trigger]
        r.slots.contains_key(i) ==> i < a.groups.len() && i <= a.index + r.radius && a.index <= i
            + r.radius
    &&& a.groups.len() > 0 ==> r.slots.contains_key(a.index) && r.slots[a.index] is Queued
    &&& a.shown is None
    &&& forall|i: usize| !#[trigger] a.probed.contains_key(i)
    &&& a.groups.len() > 0 && a.groups[a.index as int].display_path() is Some ==> a.to_probe
        == Some(a.index)
    &&& a.pending_delete is None
}

proof fn lemma_rebuilt_afresh(a: AppFacts, r: Ring)
    requires
        a.groups.len() <= usize::MAX,
        a.index < a.groups.len() || a.index == 0,
    ensures
        ({
            let o = rebuilt(a, r);
            &&& starts_afresh(o.app, o.ring)
            &&& o.ring.radius == r.radius
            &&& o.ring.epoch != r.epoch
            &&& o.app.groups == a.groups
            &&& o.app.index == a.index
            &&& o.app.shown is None
            &&& o.app.pending_delete is None
            &&& o.effects.redraw && o.effects.image_changed && o.effects.tree_changed
            &&& !o.effects.rescan && !o.effects.stat_files
        }),
{
}

/// After a confirmed delete that took the group off the list, the selection is on the group that
/// came next, or on the new end, and the ring is centred on it with the window around it waiting.
pub proof fn law_ring_is_centred_after_a_delete(
    calls: Seq<Call>,
    known: Map<Seq<char>, FileMeta>,
    on_disk: u64,
    a: AppFacts,
    r: Ring,
    now: u64,
    out: Outcome,
)
    requires
        acts(calls, known, on_disk, a, r, Action::ConfirmDelete, now, out),
        a.index < a.groups.len() <= usize::MAX,
        out.app.groups != a.groups,
    ensures
        a.pending_delete == Some(a.index),
        out.app.groups.len() == a.groups.len() - 1,
        forall|i: int| 0 <= i < a.index ==> #[trigger] out.app.groups[i] == a.groups[i],
        forall|i: int|
            a.index <= i < out.app.groups.len() ==> #[trigger] out.app.groups[i] == a.groups[i + 1],
        a.index + 1 < a.groups.len() ==> out.app.index == a.index,
        a.index + 1 == a.groups.len() && a.index > 0 ==> out.app.index == a.index - 1,
        a.groups.len() == 1 ==> out.app.index == 0,
        out.app.pending_delete is None,
        out.app.shown is None,
        out.ring.radius == r.radius,
        out.ring.epoch != r.epoch,
        starts_afresh(out.app, out.ring),
        out.effects.redraw && out.effects.image_changed && out.effects.tree_changed,
        !out.effects.rescan && !out.effects.stat_files,
{
    let g = a.groups[a.index as int];
    if a.pending_delete == Some(a.index) {
        let d = choose|d: DeletionFacts|
            {
                &&& #[trigger] trash::deletes(g.stem, member_paths(g), calls, d)
                &&& out == deleted(a, r, d)
            };
        let b = AppFacts {
            pending_delete: None,
            history: trash::history_after(a.history, a.undo_limit, d),
            status: d.summary(),
            ..a
        };
        let groups = a.groups.remove(a.index as int);
        lemma_rebuilt_afresh(
            AppFacts {
                dirs: tree::pruned(a.dirs, g.dir, g.stem),
                groups,
                index: clamped(a.index as int, groups.len()) as usize,
                ..b
            },
            r,
        );
    }
}

/// A rescan shows what was found in the order in which it was found, with the ring centred on
/// the selection and the window around it waiting; so does a first scan, which selects the first
/// group and waits for nothing else.
pub proof fn law_ring_is_centred_after_a_scan(a: AppFacts, r: Ring, dirs: Seq<DirFacts>)
    requires
        a.index < a.groups.len() || a.index == 0,
        scan::flat(dirs).len() <= usize::MAX,
    ensures
        ({
            let o = rescanned(a, r, dirs);
            &&& o.app.dirs == dirs
            &&& o.app.groups == scan::flat(dirs)
            &&& o.app.index < o.app.groups.len() || o.app.index == 0
            &&& o.app.shown is None
            &&& o.app.pending_delete is None
            &&& o.app.history == a.history
            &&& o.ring.radius == r.radius
            &&& o.ring.epoch != r.epoch
            &&& starts_afresh(o.app, o.ring)
            &&& o.effects.redraw && o.effects.image_changed && o.effects.tree_changed
            &&& o.effects.stat_files && !o.effects.rescan
        }),
        ({
            let o = adopted(a, r, dirs);
            &&& o.app.dirs == dirs
            &&& o.app.groups == scan::flat(dirs)
            &&& o.app.index == 0
            &&& o.app.shown is None
            &&& o.app.pending_delete is None
            &&& o.app.status == text::decimal(scan::flat(dirs).len()) + " images"@
            &&& !o.app.warmed
            &&& o.ring.radius == 0
            &&& o.ring.epoch != r.epoch
            &&& starts_afresh(o.app, o.ring)
            &&& o.effects.redraw && o.effects.image_changed && o.effects.tree_changed
            &&& !o.effects.rescan && !o.effects.stat_files
            &&& scan::flat(dirs).len() > 0 && scan::flat(dirs)[0].display_path() is Some
                ==> o.app.to_probe == Some(0usize)
        }),
{
}

/// Where the selected group is gone after a rescan, the selection stays at its place in the list
/// or moves to the new end.
pub proof fn law_rescan_keeps_the_place(a: AppFacts, r: Ring, dirs: Seq<DirFacts>)
    requires
        a.index < a.groups.len(),
        scan::flat(dirs).len() <= usize::MAX,
        forall|k: int|
            0 <= k < scan::flat(dirs).len() ==> (#[trigger] scan::flat(dirs)[k]).stem
                != a.groups[a.index as int].stem,
    ensures
        ({
            let i = rescanned(a, r, dirs).app.index;
            &&& a.index < scan::flat(dirs).len() ==> i == a.index
            &&& 0 < scan::flat(dirs).len() <= a.index ==> i == scan::flat(dirs).len() - 1
            &&& scan::flat(dirs).len() == 0 ==> i == 0
        }),
{
    let g = a.groups[a.index as int];
    tree::law_missing_group_is_not_found(scan::flat(dirs), g.dir, g.stem);
}

/// Once the first image is on screen the window is opened around the selection, and the files
/// are stat'ed; that happens once.
pub proof fn law_first_image_opens_the_window(a: AppFacts, r: Ring)
    requires
        a.index < a.groups.len() <= usize::MAX,
        r.paths.len() == a.groups.len(),
    ensures
        ({
            let o = opened(a, r);
            &&& o.app == (AppFacts { warmed: true, ..a })
            &&& !a.warmed ==> {
                &&& o.ring.radius == a.radius
                &&& o.ring.centre == a.index
                &&& o.ring.paths == r.paths
                &&& o.ring.slots.contains_key(a.index)
                &&& forall|i: usize|
                    i < a.groups.len() && i <= a.index + a.radius && a.index <= i + a.radius
                        ==> #[trigger] o.ring.slots.contains_key(i)
                &&& o.effects.stat_files
            }
            &&& a.warmed ==> o.ring == r && !o.effects.stat_files
            &&& !o.effects.redraw && !o.effects.image_changed && o.effects.layout == Layout::Keep
        }),
{
}

/// Every file of every group is stat'ed, and nothing else.
pub proof fn law_every_file_is_looked_up(groups: Seq<GroupFacts>, p: Seq<char>)
    ensures
        paths_of_all(groups).contains(p) <==> exists|i: int, j: int|
            0 <= i < groups.len() && 0 <= j < groups[i].members.len()
                && #[trigger] groups[i].members[j].path == p,
    decreases groups.len(),
{
    if groups.len() > 0 {
        let init = groups.drop_last();
        let last = groups.len() - 1;
        law_every_file_is_looked_up(init, p);
        let (x, y) = (paths_of_all(init), member_paths(groups.last()));
        if paths_of_all(groups).contains(p) {
            let k = choose|k: int| 0 <= k < (x + y).len() && (x + y)[k] == p;
            if k < x.len() {
                assert(x[k] == p);
                let (i, j) = choose|i: int, j: int|
                    0 <= i < init.len() && 0 <= j < init[i].members.len()
                        && #[trigger] init[i].members[j].path == p;
                assert(groups[i].members[j].path == p);
            } else {
                assert(groups[last].members[k - x.len()].path == p);
            }
        }
        if exists|i: int, j: int|
            0 <= i < groups.len() && 0 <= j < groups[i].members.len()
                && #[trigger] groups[i].members[j].path == p {
            let (i, j) = choose|i: int, j: int|
                0 <= i < groups.len() && 0 <= j < groups[i].members.len()
                    && #[trigger] groups[i].members[j].path == p;
            if i < last {
                assert(init[i].members[j].path == p);
                let k = choose|k: int| 0 <= k < x.len() && x[k] == p;
                assert((x + y)[k] == p);
            } else {
                assert((x + y)[x.len() + j] == p);
            }
        }
    }
}

/// A delete reports what became of the files, and is remembered if it moved any. If some could not
/// be moved the group stays where it is, the ring is left alone, and nothing is armed any more.
pub proof fn law_delete_reports_what_it_did(
    calls: Seq<Call>,
    known: Map<Seq<char>, FileMeta>,
    on_disk: u64,
    a: AppFacts,
    r: Ring,
    now: u64,
    out: Outcome,
    paths: Seq<Seq<char>>,
)
    requires
        acts(calls, known, on_disk, a, r, Action::ConfirmDelete, now, out),
        a.index < a.groups.len() <= usize::MAX,
        a.pending_delete == Some(a.index),
        paths.len() == a.groups[a.index as int].members.len(),
        forall|i: int|
            0 <= i < paths.len() ==> #[trigger] paths[i]
                == a.groups[a.index as int].members[i].path,
    ensures
        out.app.pending_delete is None,
        out.effects.redraw,
        exists|d: DeletionFacts|
            {
                &&& #[trigger] trash::deletes(
                    a.groups[a.index as int].stem,
                    paths,
                    calls,
                    d,
                )
                &&& out.app.status == d.summary()
                &&& out.app.history == trash::history_after(a.history, a.undo_limit, d)
                &&& d.failed.len() > 0 <==> out.app.groups == a.groups
                &&& d.failed.len() > 0 ==> out.ring == r && out.app.index == a.index
                    && out.app.dirs == a.dirs && out.app.shown == a.shown
                    && !out.effects.tree_changed && !out.effects.image_changed
                    && out.effects.layout == Layout::Keep
            },
{
    let g = a.groups[a.index as int];
    let d = choose|d: DeletionFacts|
        {
            &&& #[trigger] trash::deletes(g.stem, member_paths(g), calls, d)
            &&& out == deleted(a, r, d)
        };
    assert(member_paths(g) == paths);
    assert(a.groups.remove(a.index as int).len() != a.groups.len());
    let b = AppFacts {
        pending_delete: None,
        history: trash::history_after(a.history, a.undo_limit, d),
        status: d.summary(),
        ..a
    };
    assert(d.failed.len() == 0 ==> out == removed(b, r));
}

/// A confirmation that comes after the selection has moved deletes nothing and says so; one with
/// nothing armed does nothing.
pub proof fn law_late_confirmation_deletes_nothing(
    calls: Seq<Call>,
    known: Map<Seq<char>, FileMeta>,
    on_disk: u64,
    a: AppFacts,
    r: Ring,
    now: u64,
    out: Outcome,
)
    requires
        acts(calls, known, on_disk, a, r, Action::ConfirmDelete, now, out),
        a.pending_delete != Some(a.index),
    ensures
        calls.len() == 0,
        out.ring == r,
        out.app == (AppFacts { pending_delete: None, status: out.app.status, ..a }),
        a.pending_delete is None ==> out.app.status == a.status && !out.effects.redraw,
        a.pending_delete is Some ==> out.app.status == "selection changed, delete cancelled"@
            && out.effects.redraw,
        !out.effects.image_changed && !out.effects.tree_changed,
{
}

/// An undo takes the newest deletion off the history, reports what came back, and has the tree
/// read again; with nothing to undo it says so.
pub proof fn law_undo_reports_and_rescans(
    calls: Seq<Call>,
    known: Map<Seq<char>, FileMeta>,
    on_disk: u64,
    a: AppFacts,
    r: Ring,
    now: u64,
    out: Outcome,
)
    requires
        acts(calls, known, on_disk, a, r, Action::Undo, now, out),
    ensures
        out.ring == r,
        out.effects.redraw,
        out.app == (AppFacts { history: out.app.history, status: out.app.status, ..a }),
        a.history.len() == 0 ==> {
            &&& calls.len() == 0
            &&& out.app.history == a.history
            &&& out.app.status == "nothing to undo"@
            &&& !out.effects.rescan
        },
        a.history.len() > 0 ==> {
            &&& out.effects.rescan
            &&& out.app.history == a.history.take(a.history.len() - 1)
            &&& exists|s: trash::RestoreFacts| #[trigger]
                trash::restores(a.history[a.history.len() - 1], calls, s) && out.app.status
                    == s.summary()
        },
{
    if a.history.len() > 0 {
        assert(a.history.drop_last() == a.history.take(a.history.len() - 1));
        let s = choose|s: trash::RestoreFacts|
            {
                &&& #[trigger] trash::restores(a.history.last(), calls, s)
                &&& out.app.status == s.summary()
            };
        assert(trash::restores(a.history[a.history.len() - 1], calls, s));
    }
}

/// At first there is no library: nothing is listed, shown, armed or remembered, images are fitted,
/// and up to sixty-four deletions can be undone.
pub proof fn law_starts_with_nothing(root: Seq<char>, radius: usize)
    ensures
        ({
            let a = no_library(root, radius);
            &&& a.root == root
            &&& a.groups.len() == 0 && a.dirs.len() == 0 && a.history.len() == 0
            &&& a.undo_limit == 64
            &&& a.index == 0
            &&& a.fit_mode == FitMode::Refit
            &&& a.shown is None && a.pending_delete is None && a.to_probe is None
            &&& a.radius == radius
            &&& !a.fast_scroll && !a.warmed
            &&& a.last_nav is None && a.last_retarget is None
            &&& a.status == "scanning..."@
        }),
        ({
            let r = no_images(radius);
            &&& r.paths.len() == 0 && r.queue.len() == 0 && r.needed.len() == 0
            &&& r.slots.dom() == Set::<usize>::empty()
            &&& r.radius == radius
            &&& r.hint is None
        }),
        DEFAULT_RADIUS == 10,
{
}

/// Without any images there is nowhere to go: no key moves anything or draws anything, nothing can
/// be armed, and the trash is left alone.
pub proof fn law_nothing_moves_in_an_empty_library(
    calls: Seq<Call>,
    known: Map<Seq<char>, FileMeta>,
    on_disk: u64,
    a: AppFacts,
    r: Ring,
    action: Action,
    now: u64,
    out: Outcome,
)
    requires
        acts(calls, known, on_disk, a, r, action, now, out),
        a.groups.len() == 0,
        action is Next || action is Prev || action is Skip || action is First || action is Last
            || action is Delete,
    ensures
        out.app == a,
        out.ring == r,
        calls.len() == 0,
        !out.effects.redraw && !out.effects.image_changed && !out.effects.tree_changed
            && !out.effects.rescan && !out.effects.stat_files,
        out.effects.layout == Layout::Keep,
{
}

/// Before anything is on screen a square stands in for it, in whatever mode.
pub proof fn law_square_stands_in_for_no_image(
    calls: Seq<Call>,
    known: Map<Seq<char>, FileMeta>,
    on_disk: u64,
    a: AppFacts,
    r: Ring,
    now: u64,
    out: Outcome,
)
    requires
        a.shown is None,
    ensures
        acts(calls, known, on_disk, a, r, Action::Fit, now, out) ==> out.effects.layout
            == (Layout::Fit { width: 1, height: 1 }) && out.effects.redraw,
        acts(calls, known, on_disk, a, r, Action::ActualSize, now, out) ==> out.effects.layout
            == (Layout::ActualSize { width: 1, height: 1 }) && out.effects.redraw,
        a.after_gesture().layout == (Layout::Clamp { width: 1, height: 1 }),
        a.fit_mode == FitMode::Refit ==> a.after_resize().layout == (Layout::Fit {
            width: 1,
            height: 1,
        }),
        a.fit_mode == FitMode::Preserve ==> a.after_resize().layout == (Layout::Clamp {
            width: 1,
            height: 1,
        }),
{
}

} // verus!

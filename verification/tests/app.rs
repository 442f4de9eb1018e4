use std::cell::RefCell;
use std::collections::BTreeMap;

use cull::app::{
    worker_count, Action, App, Effects, Layout, DEFAULT_RADIUS, FAST_NAV, PREFETCH_THROTTLE,
    SETTLE, UNDO_LIMIT,
};
use cull::decode::{probe_bytes, Image};
use cull::icc::Verdict;
use cull::prefetch::{Prefetcher, State};
use cull::scan::{DirNode, FileMeta, MetaStore, Walk};
use cull::tiff::ColorSpace;
use cull::trash::Bin;
use cull::view::FitMode;

/// A real 17x9 JPEG, so that probing has something it can actually parse.
const TINY_JPEG: &[u8] = &[
    0xff, 0xd8, 0xff, 0xe0, 0x00, 0x10, 0x4a, 0x46, 0x49, 0x46, 0x00, 0x01, 0x01, 0x00, 0x00, 0x01,
    0x00, 0x01, 0x00, 0x00, 0xff, 0xdb, 0x00, 0x43, 0x00, 0x10, 0x10, 0x10, 0x10, 0x10, 0x10, 0x10,
    0x10, 0x10, 0x10, 0x10, 0x10, 0x10, 0x10, 0x10, 0x10, 0x10, 0x10, 0x10, 0x10, 0x10, 0x10, 0x10,
    0x10, 0x10, 0x10, 0x10, 0x10, 0x10, 0x10, 0x10, 0x10, 0x10, 0x10, 0x10, 0x10, 0x10, 0x10, 0x10,
    0x10, 0x10, 0x10, 0x10, 0x10, 0x10, 0x10, 0x10, 0x10, 0x10, 0x10, 0x10, 0x10, 0x10, 0x10, 0x10,
    0x10, 0x10, 0x10, 0x10, 0x10, 0x10, 0x10, 0x10, 0x10, 0xff, 0xc0, 0x00, 0x11, 0x08, 0x00, 0x09,
    0x00, 0x11, 0x03, 0x01, 0x11, 0x00, 0x02, 0x11, 0x00, 0x03, 0x11, 0x00, 0xff, 0xc4, 0x00, 0x18,
    0x00, 0x00, 0x00, 0x05, 0x00, 0x00, 0x00, 0x00, 0x00, 0x00, 0x00, 0x00, 0x00, 0x00, 0x00, 0x00,
    0x00, 0x03, 0x04, 0x05, 0x06, 0x07, 0xff, 0xc4, 0x00, 0x1f, 0x10, 0x00, 0x00, 0x00, 0x0c, 0x00,
    0x00, 0x00, 0x00, 0x00, 0x00, 0x00, 0x00, 0x00, 0x00, 0x00, 0x00, 0x00, 0x02, 0x04, 0x05, 0x14,
    0x15, 0x21, 0x31, 0x41, 0x61, 0x62, 0xa1, 0xff, 0xda, 0x00, 0x0c, 0x03, 0x01, 0x00, 0x02, 0x00,
    0x03, 0x00, 0x00, 0x3f, 0x00, 0x4f, 0x10, 0xd9, 0x4d, 0x81, 0x7c, 0xac, 0xad, 0xed, 0x04, 0xe2,
    0x62, 0xd7, 0x34, 0x0d, 0x08, 0x6c, 0xa6, 0xc0, 0xda, 0x2b, 0x2b, 0x7b, 0x41, 0xc2, 0x4c, 0x5a,
    0xe6, 0x80, 0xca, 0xca, 0x6c, 0x09, 0x49, 0x73, 0x05, 0x24, 0xd9, 0x82, 0xa8, 0x80, 0xe5, 0x2b,
    0x88, 0x46, 0x44, 0xd0, 0x03, 0x42, 0x03, 0x68, 0xae, 0x20, 0xe1, 0x26, 0x80, 0x0c, 0x09, 0x40,
    0xa4, 0x1f, 0xff, 0xd9,
];

/// A disk in memory, with a trash directory, so deletion and undo are real.
struct Disk {
    files: RefCell<BTreeMap<String, Vec<u8>>>,
    store: String,
    moved: RefCell<Vec<(String, String)>>,
    /// Files that the trash refuses.
    refuse: RefCell<Vec<String>>,
}

impl Disk {
    fn new() -> Self {
        Self {
            files: RefCell::new(BTreeMap::new()),
            store: "/td/trash".to_string(),
            moved: RefCell::new(Vec::new()),
            refuse: RefCell::new(Vec::new()),
        }
    }

    fn write(&self, path: &str, bytes: &[u8]) {
        self.files.borrow_mut().insert(path.to_string(), bytes.to_vec());
    }

    fn has(&self, path: &str) -> bool {
        self.files.borrow().contains_key(path)
    }

    fn remove(&self, path: &str) {
        self.files.borrow_mut().remove(path);
    }

    fn rename(&self, from: &str, to: &str) -> Result<(), String> {
        let mut files = self.files.borrow_mut();
        let bytes = files.remove(from).ok_or("No such file or directory")?;
        files.insert(to.to_string(), bytes);
        Ok(())
    }

    /// Read the tree under `root`, as a scan does.
    fn scan(&self, root: &str) -> Vec<DirNode> {
        let mut walk = Walk::new(root);
        while let Some(dir) = walk.next() {
            let prefix = format!("{}/", dir.trim_end_matches('/'));
            let mut files = Vec::new();
            let mut subdirs: Vec<String> = Vec::new();
            for path in self.files.borrow().keys() {
                let Some(rest) = path.strip_prefix(&prefix) else { continue };
                match rest.split_once('/') {
                    None => files.push(path.clone()),
                    Some((sub, _)) => {
                        let sub = format!("{prefix}{sub}");
                        if !subdirs.contains(&sub) {
                            subdirs.push(sub);
                        }
                    }
                }
            }
            walk.listed(dir, files, &subdirs);
        }
        walk.finish()
    }
}

impl Bin for Disk {
    fn is_present(&mut self, path: &str) -> bool {
        self.has(path)
    }

    fn send(&mut self, path: &str) -> Result<(), String> {
        if self.refuse.borrow().iter().any(|p| p == path) {
            return Err("permission denied".to_string());
        }
        let name = path.rsplit('/').next().ok_or("no name")?;
        let dest = format!("{}/{name}", self.store);
        self.rename(path, &dest)?;
        self.moved.borrow_mut().push((path.to_string(), dest));
        Ok(())
    }

    fn restore(&mut self, path: &str) -> Result<(), String> {
        let mut m = self.moved.borrow_mut();
        let i = m.iter().position(|(orig, _)| orig == path).ok_or("not in trash")?;
        let (orig, dest) = m.remove(i);
        self.rename(&dest, &orig)
    }
}

/// An app with what surrounds it: the ring, the disk, a clock that only moves when told to, and
/// the zoom that its layouts lead to.
struct Rig {
    app: App,
    ring: Prefetcher,
    disk: Disk,
    meta: MetaStore,
    now: u64,
    zoom: f64,
    viewport: (f64, f64),
}

impl Rig {
    fn new(disk: Disk, app: App, ring: Prefetcher) -> Self {
        let mut rig = Self {
            app,
            ring,
            disk,
            meta: MetaStore::new(),
            now: 1_000_000_000,
            zoom: 1.0,
            viewport: (1280.0, 720.0),
        };
        rig.probe();
        rig
    }

    fn lay_out(&mut self, layout: Layout) {
        match layout {
            Layout::Keep | Layout::Clamp { .. } => {}
            Layout::Fit { width, height } => {
                let w = self.viewport.0 / f64::from(width);
                let h = self.viewport.1 / f64::from(height);
                self.zoom = w.min(h).min(1.0);
            }
            Layout::ActualSize { .. } => self.zoom = 1.0,
        }
    }

    /// Read the header that the app asks for.
    fn probe(&mut self) {
        let Some(path) = self.app.probe_path().map(|p| p.to_string()) else { return };
        let found = self.disk.files.borrow().get(&path).and_then(|b| probe_bytes(b));
        let layout = self.app.probed(found);
        self.lay_out(layout);
    }

    fn settle(&mut self, e: Effects) -> Effects {
        self.lay_out(e.layout);
        let mut e = e;
        if e.rescan {
            let dirs = self.disk.scan(self.app.rescan_root());
            e = self.app.rescan(dirs, &mut self.ring);
            self.lay_out(e.layout);
        }
        self.probe();
        e
    }

    fn act(&mut self, action: Action) -> Effects {
        let e = self.app.act(action, self.now, &mut self.ring, &mut self.disk, &self.meta, 0);
        self.settle(e)
    }

    fn select(&mut self, index: usize) -> Effects {
        let e = self.app.select(index, self.now, &mut self.ring);
        self.settle(e)
    }

    fn tick(&mut self) -> Effects {
        let e = self.app.tick(self.now, &mut self.ring);
        self.settle(e)
    }

    fn warm(&mut self) -> Effects {
        self.app.warm_full_window(&mut self.ring)
    }

    fn resize(&mut self, width: f64, height: f64) {
        self.viewport = (width, height);
        let e = self.app.resize();
        self.lay_out(e.layout);
    }

    fn sleep(&mut self, ns: u64) {
        self.now += ns;
    }

    /// Decode until there is nothing left to do. Image size is fixed: only the header of the
    /// file on disk is real.
    fn wait_idle(&mut self) {
        while let Some(c) = self.ring.claim() {
            let result = if self.disk.has(&c.path) {
                Ok(Image {
                    width: 6192,
                    height: 4128,
                    rgba: vec![0; 4],
                    orientation: 1,
                    icc: None,
                    color_space: None,
                    scale_denom: 1,
                    native_width: 6192,
                    native_height: 4128,
                })
            } else {
                Err("missing".to_string())
            };
            self.ring.publish(c.index, c.epoch, result);
        }
    }

    fn current_paths(&self) -> Vec<String> {
        self.app.current().unwrap().all_paths().iter().map(|p| p.to_string()).collect()
    }
}

const MS: u64 = 1_000_000;

/// Build a library of `n` JPG+ARW pairs plus a trash dir, and an App over it.
fn app_with(n: usize) -> Rig {
    let disk = Disk::new();
    for i in 0..n {
        disk.write(&format!("/td/photos/IMG{i:04}.JPG"), TINY_JPEG);
        // The ARW is only ever a delete companion here; the JPG is preferred for
        // display, so it does not need to be a parseable container.
        disk.write(&format!("/td/photos/IMG{i:04}.ARW"), b"x");
    }
    let (app, ring) = App::new("/td/photos".to_string(), disk.scan("/td/photos"), 3);
    Rig::new(disk, app, ring)
}

/// Pretend the renderer bound a texture, which is what sets up the view.
fn bind(rig: &mut Rig, orientation: u16) {
    let idx = rig.app.index();
    let layout = rig.app.note_shown(idx, (6192, 4128), orientation, None, None);
    rig.lay_out(layout);
}

/// The view must be laid out from the file header before any pixels exist, including for the
/// very first image.
#[test]
fn first_image_is_laid_out_before_any_texture_arrives() {
    let rig = app_with(3);
    let shown = rig
        .app
        .shown()
        .expect("the first image must be sized from its header at startup");
    assert_eq!(shown.index, 0);
    assert_eq!(shown.stored, (17, 9), "dimensions must come from the header");
    assert!(rig.zoom > 0.0);
}

/// The window must be able to open before the library is known, because scanning a
/// large root is the whole perceived launch.
#[test]
fn an_empty_app_is_usable_before_any_scan() {
    let (app, ring) = App::empty("/td/photos".to_string(), 3);
    let mut rig = Rig::new(Disk::new(), app, ring);

    assert!(rig.app.is_empty());
    assert!(rig.app.current().is_none());
    // Every input must be a safe no-op rather than a panic while we wait.
    for a in [
        Action::Next,
        Action::Prev,
        Action::Delete,
        Action::ConfirmDelete,
        Action::Undo,
        Action::Fit,
        Action::ActualSize,
        Action::ToggleFitMode,
    ] {
        rig.act(a);
    }
    rig.app.zoom();
    rig.resize(800.0, 600.0);
    rig.warm();
    assert!(rig.app.is_empty());
}

#[test]
fn adopting_a_scan_populates_and_shows_the_first_image() {
    let disk = Disk::new();
    for i in 0..5 {
        disk.write(&format!("/td/photos/IMG{i:04}.JPG"), TINY_JPEG);
    }
    let (app, ring) = App::empty("/td/photos".to_string(), 3);
    let mut rig = Rig::new(disk, app, ring);
    assert_eq!(rig.app.status, "scanning...");

    let e = rig.app.adopt_scan(rig.disk.scan("/td/photos"), &mut rig.ring);
    assert!(e.tree_changed && e.image_changed);
    rig.settle(e);
    assert_eq!(rig.app.len(), 5);
    assert_eq!(rig.app.index(), 0);
    // The layout still holds for the first image once the tree arrives.
    assert_eq!(rig.app.shown().unwrap().stored, (17, 9));
    assert!(rig.app.status.contains("5 images"));

    // And the window still opens only after the first frame, not before.
    rig.wait_idle();
    assert_eq!(rig.ring.state(3), State::Absent);
    rig.warm();
    rig.wait_idle();
    assert_ne!(rig.ring.state(3), State::Absent);
}

/// Startup must not queue the whole window: 21 full-resolution decodes on every core
/// while the GPU driver is initialising is what made launch feel slow, and none of
/// the neighbours can be navigated to before the window even exists.
#[test]
fn startup_decodes_only_the_first_image() {
    let mut rig = app_with(40);
    rig.wait_idle();

    assert_ne!(
        rig.ring.state(0),
        State::Absent,
        "the image being shown must be decoded immediately"
    );
    for i in 1..40 {
        assert_eq!(
            rig.ring.state(i),
            State::Absent,
            "index {i} must not be decoded before the first frame is on screen"
        );
    }

    // Once something is on screen the full window fills in as usual.
    assert!(rig.warm().stat_files);
    rig.wait_idle();
    for i in 0..=3 {
        assert_ne!(rig.ring.state(i), State::Absent, "index {i} after warm-up");
    }
    assert_eq!(rig.ring.state(30), State::Absent, "still bounded by radius");
}

#[test]
fn warming_the_window_twice_is_harmless() {
    let mut rig = app_with(20);
    rig.warm();
    rig.wait_idle();
    let after_first = rig.ring.stats().decoded;

    assert_eq!(rig.warm(), Effects::default());
    rig.wait_idle();
    assert_eq!(rig.ring.stats().decoded, after_first);
}

/// The colour guard only helps if it can actually fire, which needs the profile to reach
/// the app after decoding rather than the `None` the layout pass supplies.
#[test]
fn colour_verdict_is_updated_once_the_pixels_land() {
    let mut rig = app_with(2);
    assert!(!rig.app.shown().unwrap().colour.needs_warning());

    rig.app.note_colour(0, Verdict::NotSrgb("Adobe RGB profile"));
    assert!(rig.app.shown().unwrap().colour.needs_warning());
    assert!(rig.app.status.to_lowercase().contains("adobe"));
}

#[test]
fn colour_verdict_for_another_index_is_ignored() {
    // A late upload for an image the user has already navigated away from must not
    // relabel whatever is now on screen.
    let mut rig = app_with(3);
    rig.app.note_colour(2, Verdict::NotSrgb("Adobe RGB profile"));
    assert!(!rig.app.shown().unwrap().colour.needs_warning());
}

#[test]
fn discovers_all_groups() {
    let rig = app_with(10);
    assert_eq!(rig.app.len(), 10);
    assert_eq!(rig.app.index(), 0);
    // Each group is a JPG+ARW pair.
    assert_eq!(rig.app.current().unwrap().members.len(), 2);
}

#[test]
fn next_and_prev_saturate_at_the_ends() {
    let mut rig = app_with(5);
    assert_eq!(rig.app.index(), 0);
    // Already at the start: prev is a no-op, not a wrap to the end.
    rig.act(Action::Prev);
    assert_eq!(rig.app.index(), 0);

    for expect in 1..5 {
        rig.act(Action::Next);
        assert_eq!(rig.app.index(), expect);
    }
    // At the end: next stays put.
    rig.act(Action::Next);
    assert_eq!(rig.app.index(), 4, "must not wrap around mid-cull");
}

#[test]
fn skip_first_and_last() {
    let mut rig = app_with(100);
    rig.act(Action::Skip(30));
    assert_eq!(rig.app.index(), 30);
    rig.act(Action::Skip(-10));
    assert_eq!(rig.app.index(), 20);
    // Overshooting clamps.
    rig.act(Action::Skip(9999));
    assert_eq!(rig.app.index(), 99);
    rig.act(Action::First);
    assert_eq!(rig.app.index(), 0);
    rig.act(Action::Last);
    assert_eq!(rig.app.index(), 99);
}

#[test]
fn skips_of_any_size_clamp() {
    let mut rig = app_with(3);
    rig.act(Action::Skip(i64::MAX));
    assert_eq!(rig.app.index(), 2);
    rig.act(Action::Skip(i64::MIN));
    assert_eq!(rig.app.index(), 0);
}

#[test]
fn moving_reports_image_changed() {
    let mut rig = app_with(5);
    let e = rig.act(Action::Next);
    assert!(e.image_changed && e.redraw);
    // Selecting the current index again does nothing once an image is bound.
    bind(&mut rig, 1);
    let e = rig.select(rig.app.index());
    assert!(!e.image_changed);
}

#[test]
fn zooming_leaves_refit_mode_so_one_x_recentres() {
    let mut rig = app_with(3);
    bind(&mut rig, 1);
    assert_eq!(rig.app.fit_mode, FitMode::Refit);
    let fitted = rig.zoom;

    rig.zoom *= 3.0;
    rig.app.zoom();
    assert_eq!(
        rig.app.fit_mode,
        FitMode::Preserve,
        "zooming should hand control to the user"
    );
    assert_eq!(rig.app.status, "mode: keep zoom");

    // A single toggle must now refit, rather than needing two presses.
    rig.act(Action::ToggleFitMode);
    assert_eq!(rig.app.fit_mode, FitMode::Refit);
    assert!(
        (rig.zoom - fitted).abs() < 1e-9,
        "one press of X should recentre, got zoom {}",
        rig.zoom
    );
}

#[test]
fn panning_also_leaves_refit_mode() {
    let mut rig = app_with(3);
    bind(&mut rig, 1);
    rig.act(Action::ActualSize);
    let e = rig.app.pan();
    assert_eq!(e.layout, Layout::Clamp { width: 6192, height: 4128 });
    assert_eq!(rig.app.fit_mode, FitMode::Preserve);
}

#[test]
fn zooming_while_preserving_keeps_the_mode() {
    let mut rig = app_with(3);
    bind(&mut rig, 1);
    rig.act(Action::ToggleFitMode);
    assert_eq!(rig.app.fit_mode, FitMode::Preserve);
    rig.app.zoom();
    assert_eq!(rig.app.fit_mode, FitMode::Preserve, "must not flip back");
}

#[test]
fn refit_mode_resets_zoom_between_images() {
    let mut rig = app_with(5);
    bind(&mut rig, 1);
    let fitted = rig.zoom;

    // Set the zoom directly rather than by hand, which would hand control to the
    // user and leave refit mode. This isolates the mode's own semantics.
    rig.zoom = fitted * 4.0;
    assert_eq!(rig.app.fit_mode, FitMode::Refit);

    rig.act(Action::Next);
    bind(&mut rig, 1);
    assert!(
        (rig.zoom - fitted).abs() < 1e-9,
        "refit must restore fit zoom, got {}",
        rig.zoom
    );
}

#[test]
fn actual_size_leaves_refit_mode() {
    // Otherwise pressing Z then navigating would throw the 1:1 away immediately.
    let mut rig = app_with(3);
    bind(&mut rig, 1);
    rig.act(Action::ActualSize);
    assert_eq!(rig.app.fit_mode, FitMode::Preserve);

    rig.act(Action::Next);
    bind(&mut rig, 1);
    assert!((rig.zoom - 1.0).abs() < 1e-9, "1:1 should carry over");
}

#[test]
fn preserve_mode_keeps_zoom_between_images() {
    let mut rig = app_with(5);
    bind(&mut rig, 1);
    rig.act(Action::ToggleFitMode);
    assert_eq!(rig.app.fit_mode, FitMode::Preserve);

    rig.act(Action::ActualSize);
    let z = rig.zoom;
    assert!((z - 1.0).abs() < 1e-9);

    rig.act(Action::Next);
    bind(&mut rig, 1);
    assert!((rig.zoom - z).abs() < 1e-9, "preserve must carry zoom, got {}", rig.zoom);
}

#[test]
fn orientation_changes_the_fitted_zoom() {
    let mut rig = app_with(2);
    rig.resize(1000.0, 800.0);
    bind(&mut rig, 1);
    let landscape = rig.zoom;
    assert!((landscape - 1000.0 / 6192.0).abs() < 1e-9);

    // Orientation 8 makes the same file portrait, so the fit becomes height-limited.
    bind(&mut rig, 8);
    assert_eq!(rig.app.shown().unwrap().displayed, (4128, 6192));
    assert!((rig.zoom - 800.0 / 6192.0).abs() < 1e-9);
}

#[test]
fn resize_refits_or_reclamps_by_mode() {
    let mut rig = app_with(2);
    rig.resize(1000.0, 800.0);
    bind(&mut rig, 1);
    rig.resize(2000.0, 1600.0);
    assert!((rig.zoom - 2000.0 / 6192.0).abs() < 1e-9, "refit on resize");

    rig.act(Action::ToggleFitMode);
    rig.act(Action::ActualSize);
    rig.resize(500.0, 400.0);
    assert!((rig.zoom - 1.0).abs() < 1e-9, "preserve keeps zoom on resize");
}

#[test]
fn delete_trashes_the_whole_group_and_advances() {
    let mut rig = app_with(5);
    let paths = rig.current_paths();

    rig.act(Action::Delete);
    let e = rig.act(Action::ConfirmDelete);

    assert!(e.tree_changed && e.image_changed);
    assert_eq!(rig.app.len(), 4, "group removed from the list");
    for p in &paths {
        assert!(!rig.disk.has(p), "{p} should be trashed");
    }
    // Index stays put, which now points at what was the next image.
    assert_eq!(rig.app.index(), 0);
    assert_eq!(rig.app.current().unwrap().stem, "IMG0001");
    assert_eq!(rig.app.history_len(), 1);
    // The tree is in step with the list.
    assert_eq!(rig.app.dirs()[0].groups.len(), 4);
    assert_eq!(rig.app.status, "trashed IMG0000 (2 files)");
}

#[test]
fn delete_requires_confirmation() {
    let mut rig = app_with(5);
    let paths = rig.current_paths();

    // Arming must not touch the filesystem.
    rig.act(Action::Delete);
    assert!(rig.app.delete_pending());
    assert_eq!(rig.app.len(), 5, "nothing deleted before confirmation");
    for p in &paths {
        assert!(rig.disk.has(p), "{p} must still exist");
    }
    assert!(rig.app.status.contains("Enter to confirm"));

    // Enter carries it out.
    rig.act(Action::ConfirmDelete);
    assert!(!rig.app.delete_pending());
    assert_eq!(rig.app.len(), 4);
    for p in &paths {
        assert!(!rig.disk.has(p), "{p} should be trashed");
    }
}

#[test]
fn the_question_says_how_much_is_going() {
    let mut rig = app_with(2);
    let e = rig.app.act(Action::Delete, rig.now, &mut rig.ring, &mut rig.disk, &rig.meta, 5_000_000);
    assert_eq!(e, Effects { redraw: true, ..Effects::default() });
    assert_eq!(
        rig.app.status,
        "delete IMG0000 (2 files, 5.0 MB)? Enter to confirm, Esc to cancel"
    );
    // What the background pass found counts over what is on disk, once it has found it all.
    let found = |ext: &str, size| {
        vec![(format!("/td/photos/IMG0000.{ext}"), FileMeta { size, modified: None })]
    };
    rig.meta.publish(&found("JPG", 2_000));
    rig.app.act(Action::Delete, rig.now, &mut rig.ring, &mut rig.disk, &rig.meta, 5_000_000);
    assert!(rig.app.status.contains("(2 files, 5.0 MB)"));
    rig.meta.publish(&found("ARW", 10_000));
    rig.app.act(Action::Delete, rig.now, &mut rig.ring, &mut rig.disk, &rig.meta, 5_000_000);
    assert!(rig.app.status.contains("(2 files, 12 kB)"));
}

#[test]
fn cancel_disarms_a_pending_delete() {
    let mut rig = app_with(5);
    rig.act(Action::Delete);
    assert!(rig.app.delete_pending());

    rig.act(Action::Cancel);
    assert!(!rig.app.delete_pending());
    assert_eq!(rig.app.len(), 5, "cancel must not delete");
    assert!(rig.app.status.contains("cancelled"));

    // Enter afterwards is inert.
    rig.act(Action::ConfirmDelete);
    assert_eq!(rig.app.len(), 5);
}

#[test]
fn navigating_disarms_a_pending_delete() {
    // Otherwise an Enter meant for something else could delete the wrong group.
    let mut rig = app_with(5);
    rig.act(Action::Delete);
    assert!(rig.app.delete_pending());

    rig.act(Action::Next);
    assert!(!rig.app.delete_pending(), "moving must cancel the armed delete");
    rig.act(Action::ConfirmDelete);
    assert_eq!(rig.app.len(), 5, "no deletion should have happened");
}

#[test]
fn confirm_without_arming_does_nothing() {
    let mut rig = app_with(3);
    rig.act(Action::ConfirmDelete);
    assert_eq!(rig.app.len(), 3);
    assert_eq!(rig.app.history_len(), 0);
}

#[test]
fn deleting_the_last_image_clamps_the_index() {
    let mut rig = app_with(3);
    rig.act(Action::Last);
    assert_eq!(rig.app.index(), 2);
    rig.act(Action::Delete);
    rig.act(Action::ConfirmDelete);
    assert_eq!(rig.app.len(), 2);
    assert_eq!(rig.app.index(), 1, "must clamp back onto a valid group");
}

#[test]
fn deleting_everything_leaves_a_consistent_empty_state() {
    let mut rig = app_with(3);
    for _ in 0..3 {
        rig.act(Action::Delete);
        rig.act(Action::ConfirmDelete);
    }
    assert_eq!(rig.app.len(), 0);
    assert!(rig.app.is_empty());
    assert!(rig.app.current().is_none());
    assert!(rig.app.dirs().is_empty());
    // Further input must not panic.
    rig.act(Action::Next);
    rig.act(Action::Delete);
    rig.act(Action::Prev);
    rig.app.zoom();
    assert_eq!(rig.app.len(), 0);
}

#[test]
fn a_refused_file_keeps_the_group_in_the_list() {
    let mut rig = app_with(3);
    rig.disk.refuse.borrow_mut().push("/td/photos/IMG0000.JPG".to_string());
    rig.act(Action::Delete);
    let e = rig.act(Action::ConfirmDelete);
    assert!(e.redraw && !e.tree_changed);
    assert_eq!(rig.app.len(), 3);
    assert_eq!(rig.app.status, "trashed IMG0000 (1 files), 1 FAILED");
    assert!(rig.disk.has("/td/photos/IMG0000.JPG"));
    assert_eq!(rig.app.history_len(), 1, "the other file can be restored");
}

#[test]
fn undo_restores_the_group_and_the_selection() {
    let mut rig = app_with(5);
    let stem = rig.app.current().unwrap().stem.clone();
    let paths = rig.current_paths();

    rig.act(Action::Delete);
    rig.act(Action::ConfirmDelete);
    assert_eq!(rig.app.len(), 4);

    rig.act(Action::Undo);

    assert_eq!(rig.app.len(), 5, "group is back in the list");
    for p in &paths {
        assert!(rig.disk.has(p), "{p} should be restored");
    }
    // Ordering is by stem, so the restored group returns to position 0.
    assert_eq!(rig.app.groups()[0].stem, stem);
    assert_eq!(rig.app.history_len(), 0);
    // The selection stayed on the group it was on.
    assert_eq!(rig.app.current().unwrap().stem, "IMG0001");
}

#[test]
fn undo_with_empty_history_is_reported_not_crashed() {
    let mut rig = app_with(2);
    rig.act(Action::Undo);
    assert!(rig.app.status.contains("nothing to undo"));
    assert_eq!(rig.app.len(), 2);
}

#[test]
fn repeated_delete_then_undo_round_trips() {
    let mut rig = app_with(4);
    for _ in 0..3 {
        rig.act(Action::Delete);
        rig.act(Action::ConfirmDelete);
    }
    assert_eq!(rig.app.len(), 1);
    for _ in 0..3 {
        rig.act(Action::Undo);
    }
    assert_eq!(rig.app.len(), 4, "all three deletions undone");
    assert_eq!(rig.app.history_len(), 0);
}

#[test]
fn vanished_file_becomes_a_failed_slot_not_a_crash() {
    // The user removed a file behind our back.
    //
    // The victim must start outside the initial prefetch window, or the ring may
    // already have decoded it successfully and would legitimately keep serving the
    // cached pixels.
    let mut rig = app_with(30);
    let victim_index = 20;
    let victim = rig.app.groups()[victim_index].display_path().unwrap().to_string();
    assert_eq!(rig.ring.state(victim_index), State::Absent);
    rig.disk.remove(&victim);

    rig.select(victim_index);
    rig.wait_idle();

    assert_eq!(rig.app.current_state(&rig.ring), State::Failed);
    assert!(rig.ring.failure(victim_index).is_some());
    // Navigation past it still works.
    rig.act(Action::Next);
    rig.wait_idle();
    assert_eq!(rig.app.current_state(&rig.ring), State::Ready);
}

#[test]
fn colour_warning_is_surfaced_for_non_srgb() {
    let mut rig = app_with(1);
    rig.app.note_shown(0, (100, 100), 1, None, Some(ColorSpace::AdobeRgb));
    assert!(rig.app.shown().unwrap().colour.needs_warning());
    assert!(rig.app.status.to_lowercase().contains("adobe"));
}

#[test]
fn srgb_images_produce_no_warning() {
    let mut rig = app_with(1);
    rig.app.note_shown(0, (100, 100), 1, None, Some(ColorSpace::Srgb));
    assert!(!rig.app.shown().unwrap().colour.needs_warning());
}

#[test]
fn empty_library_is_handled() {
    let disk = Disk::new();
    let (app, ring) = App::new("/td/nothing".to_string(), disk.scan("/td/nothing"), 3);
    let mut rig = Rig::new(disk, app, ring);

    assert_eq!(rig.app.len(), 0);
    assert!(rig.app.current().is_none());
    // Every action must be a safe no-op.
    for a in [
        Action::Next,
        Action::Prev,
        Action::Delete,
        Action::ConfirmDelete,
        Action::Cancel,
        Action::Undo,
        Action::First,
        Action::Last,
        Action::Fit,
        Action::ActualSize,
        Action::ToggleFitMode,
    ] {
        rig.act(a);
    }
    assert_eq!(rig.app.len(), 0);
}

#[test]
fn rapid_navigation_enters_and_leaves_fast_scroll() {
    let mut rig = app_with(60);
    assert!(!rig.app.fast_scrolling(), "starts normal");
    assert!(rig.app.settle_deadline().is_none());

    // Two steps in quick succession is a held key.
    rig.act(Action::Next);
    rig.act(Action::Next);
    assert!(rig.app.fast_scrolling(), "held key should shrink the window");
    assert!(rig.app.settle_deadline().is_some(), "must schedule a settle check");
    assert_eq!(rig.app.settle_deadline(), Some(rig.now + SETTLE));

    // Ticking before the settle interval changes nothing.
    assert!(!rig.tick().redraw);
    assert!(rig.app.fast_scrolling());

    // After the interval, the full window is restored.
    rig.sleep(SETTLE + 20 * MS);
    assert!(rig.tick().redraw, "settling should ask for a redraw");
    assert!(!rig.app.fast_scrolling());
    assert!(rig.app.settle_deadline().is_none());
}

#[test]
fn slow_navigation_never_enters_fast_scroll() {
    let mut rig = app_with(20);
    for _ in 0..3 {
        rig.act(Action::Next);
        // Deliberately slower than the held-key threshold.
        rig.sleep(FAST_NAV + 20 * MS);
    }
    assert!(
        !rig.app.fast_scrolling(),
        "tapping the key must not trigger fast scroll"
    );
}

#[test]
fn fast_scroll_shrinks_then_restores_the_prefetch_window() {
    let mut rig = app_with(80);
    // The ring stays pinned to the first image until a frame has been presented, so
    // steady-state prefetch behaviour only exists after this.
    rig.warm();
    rig.select(40);
    rig.wait_idle();
    // Full radius is 3 in these tests, so 37..=43 are warm.
    assert_eq!(rig.ring.state(37), State::Ready);

    rig.act(Action::Next);
    rig.act(Action::Next);
    assert!(rig.app.fast_scrolling());
    rig.wait_idle();
    // Radius is now 1, so only the immediate neighbours are kept.
    let idx = rig.app.index();
    assert_eq!(rig.ring.state(idx), State::Ready);
    assert_eq!(
        rig.ring.state(idx + 4),
        State::Absent,
        "distant slots must not be decoded while scrolling"
    );

    rig.sleep(SETTLE + 20 * MS);
    rig.tick();
    rig.wait_idle();
    assert_eq!(
        rig.ring.state(idx + 3),
        State::Ready,
        "full window should be refilled after settling"
    );
}

/// While a key is held the selection must keep up, but the decode target must not
/// chase every event or nothing ever finishes decoding.
#[test]
fn fast_scroll_throttles_the_decode_target() {
    let mut rig = app_with(400);
    rig.select(0);

    // Simulate a high key-repeat rate: many navigations with no pause.
    for _ in 0..60 {
        rig.act(Action::Next);
    }
    assert!(rig.app.fast_scrolling());
    // The selection tracked every event.
    assert_eq!(rig.app.index(), 60, "selection must keep up with the key");

    // But the ring was only retargeted once, so decoding had a chance to progress
    // instead of being restarted 60 times.
    rig.wait_idle();
    let st = rig.ring.stats();
    assert!(
        st.decoded + st.discarded + st.skipped < 20,
        "decode target chased too many events: {st:?}"
    );
    // Once the throttle is over the next event retargets again.
    rig.sleep(PREFETCH_THROTTLE);
    rig.act(Action::Next);
    assert_eq!(rig.ring.window(), Some((60, 62)));
}

#[test]
fn settling_retargets_to_where_we_landed() {
    let mut rig = app_with(200);
    rig.select(0);
    for _ in 0..40 {
        rig.act(Action::Next);
    }
    let landed = rig.app.index();
    assert!(rig.app.fast_scrolling());

    rig.sleep(SETTLE + 20 * MS);
    rig.tick();
    rig.wait_idle();

    assert!(!rig.app.fast_scrolling());
    assert_eq!(
        rig.ring.state(landed),
        State::Ready,
        "the image we stopped on must be decoded"
    );
    // And the full window around it.
    assert_eq!(rig.ring.state(landed + 3), State::Ready);
}

#[test]
fn fast_scroll_does_not_resize_the_view_for_images_it_skips() {
    // The view must stay sized for the image actually on screen; refitting to an
    // image we are only passing through would distort what is displayed.
    let mut rig = app_with(100);
    rig.resize(1000.0, 800.0);
    rig.select(0);
    bind(&mut rig, 1);
    let shown_index = rig.app.shown().unwrap().index;

    for _ in 0..30 {
        rig.act(Action::Next);
    }
    assert!(rig.app.fast_scrolling());
    // Whatever is recorded as shown must not have jumped to an arbitrary skipped
    // index; at most it advanced to a throttled retarget.
    let now_shown = rig.app.shown().unwrap().index;
    assert!(
        now_shown == shown_index || now_shown <= rig.app.index(),
        "shown index {now_shown} is inconsistent with selection {}",
        rig.app.index()
    );
}

#[test]
fn tick_is_harmless_when_not_scrolling() {
    let mut rig = app_with(5);
    for _ in 0..3 {
        assert!(!rig.tick().redraw);
    }
    assert!(!rig.app.fast_scrolling());
}

#[test]
fn prefetch_window_follows_the_selection() {
    let mut rig = app_with(30);
    rig.warm();
    rig.select(15);
    rig.wait_idle();
    // Radius 3, so 12..=18 are warm and the rest are not.
    for i in 12..=18 {
        assert_eq!(rig.ring.state(i), State::Ready, "index {i}");
    }
    assert_eq!(rig.ring.state(11), State::Absent);
    assert_eq!(rig.ring.state(19), State::Absent);
}

#[test]
fn an_unreadable_header_leaves_the_layout_alone() {
    let mut rig = app_with(3);
    let before = rig.app.shown().unwrap().index;
    rig.disk.write("/td/photos/IMG0001.JPG", b"junk");
    let e = rig.act(Action::Next);
    assert_eq!(e.layout, Layout::Keep);
    assert_eq!(rig.app.shown().unwrap().index, before);
    assert!(rig.app.probe_path().is_none(), "it is only asked for once");
}

#[test]
fn a_rescan_covers_the_whole_root() {
    let disk = Disk::new();
    disk.write("/r/a/b/1.JPG", TINY_JPEG);
    disk.write("/r/c/2.JPG", TINY_JPEG);
    let (app, ring) = App::new("/r".to_string(), disk.scan("/r"), 3);
    let mut rig = Rig::new(disk, app, ring);
    assert_eq!(rig.app.rescan_root(), "/r");
    rig.select(1);
    rig.disk.write("/r/b/0.JPG", TINY_JPEG);
    let dirs = rig.disk.scan("/r");
    let e = rig.app.rescan(dirs, &mut rig.ring);
    assert!(e.stat_files && e.tree_changed);
    assert_eq!(rig.app.len(), 3);
    assert_eq!(rig.app.current().unwrap().stem, "2", "the selection moved with its group");
    assert_eq!(rig.app.meta_paths().len(), 3);
}

#[test]
fn undoing_the_delete_of_the_only_group_brings_it_back() {
    let mut rig = app_with(1);
    rig.act(Action::Delete);
    rig.act(Action::ConfirmDelete);
    assert!(rig.app.is_empty() && rig.app.dirs().is_empty());
    assert_eq!(rig.app.rescan_root(), "/td/photos", "there is still somewhere to look");
    rig.act(Action::Undo);
    assert_eq!(rig.app.len(), 1);
    assert_eq!(rig.app.current().unwrap().stem, "IMG0000");
}

/// A trash that takes everything and remembers what it was asked.
#[derive(Default)]
struct Recorder {
    looked: Vec<String>,
    sent: Vec<String>,
    restored: Vec<String>,
}

impl Bin for Recorder {
    fn is_present(&mut self, path: &str) -> bool {
        self.looked.push(path.to_string());
        true
    }

    fn send(&mut self, path: &str) -> Result<(), String> {
        self.sent.push(path.to_string());
        Ok(())
    }

    fn restore(&mut self, path: &str) -> Result<(), String> {
        self.restored.push(path.to_string());
        Ok(())
    }
}

#[test]
fn only_a_confirmed_delete_and_undo_touch_the_trash() {
    let mut rig = app_with(5);
    let mut bin = Recorder::default();
    for a in [
        Action::Next,
        Action::Prev,
        Action::Skip(2),
        Action::First,
        Action::Last,
        Action::ConfirmDelete,
        Action::Undo,
        Action::Delete,
        Action::Cancel,
        Action::ConfirmDelete,
        Action::ToggleFitMode,
        Action::Fit,
        Action::ActualSize,
        Action::Delete,
    ] {
        rig.app.act(a, rig.now, &mut rig.ring, &mut bin, &rig.meta, 0);
        assert!(bin.looked.is_empty() && bin.sent.is_empty() && bin.restored.is_empty(), "{a:?}");
    }
    // The armed group goes, each of its files once and in order, and nothing else.
    let paths = rig.current_paths();
    let e = rig.app.act(Action::ConfirmDelete, rig.now, &mut rig.ring, &mut bin, &rig.meta, 0);
    assert!(e.tree_changed && e.image_changed && e.redraw);
    assert_eq!((&bin.looked, &bin.sent), (&paths, &paths));
    assert!(bin.restored.is_empty());
    assert_eq!((rig.app.len(), rig.app.index(), rig.app.history_len()), (4, 3, 1));
    // And undo restores exactly those.
    rig.app.act(Action::Undo, rig.now, &mut rig.ring, &mut bin, &rig.meta, 0);
    assert_eq!(bin.restored, paths);
    assert_eq!(bin.sent.len(), 2, "nothing more was sent");
}

#[test]
fn a_couple_of_cores_are_left_over() {
    assert_eq!(worker_count(7, Some(2)), 7);
    assert_eq!(worker_count(0, Some(16)), 14);
    assert_eq!(worker_count(0, Some(3)), 2);
    assert_eq!(worker_count(0, None), 4);
    assert_eq!(DEFAULT_RADIUS, 10);
    assert_eq!(UNDO_LIMIT, 64);
}

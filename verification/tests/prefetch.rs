use std::cell::Cell;

use cull::decode::Image;
use cull::prefetch::{Claim, Loader, Prefetcher, State};

fn tiny_image() -> Image {
    Image {
        width: 1,
        height: 1,
        rgba: vec![0, 0, 0, 255],
        orientation: 1,
        icc: None,
        color_space: None,
        scale_denom: 1,
        native_width: 1,
        native_height: 1,
    }
}

fn paths(n: usize) -> Vec<String> {
    (0..n).map(|i| format!("/img/{i}.jpg")).collect()
}

/// Succeeds for every path, counting calls.
struct CountingLoader {
    calls: Cell<usize>,
}

impl CountingLoader {
    fn new() -> Self {
        Self { calls: Cell::new(0) }
    }
}

impl Loader for CountingLoader {
    fn load(&self, _p: &str) -> Result<Image, String> {
        self.calls.set(self.calls.get() + 1);
        Ok(tiny_image())
    }
}

/// Fails for paths whose index is in `missing`, mimicking vanishing files.
struct FlakyLoader {
    missing: Vec<usize>,
}

impl Loader for FlakyLoader {
    fn load(&self, p: &str) -> Result<Image, String> {
        let stem = p.rsplit('/').next().unwrap().split('.').next().unwrap();
        let idx: usize = stem.parse().unwrap();
        if self.missing.contains(&idx) {
            Err("No such file or directory".into())
        } else {
            Ok(tiny_image())
        }
    }
}

/// What a worker does with a job it has claimed.
fn finish<L: Loader>(pf: &mut Prefetcher, loader: &L, c: Claim) {
    let result = loader.load(&c.path);
    pf.publish(c.index, c.epoch, result);
}

/// Let a worker run until there is nothing left to claim.
fn wait_idle<L: Loader>(pf: &mut Prefetcher, loader: &L) {
    while let Some(c) = pf.claim() {
        finish(pf, loader, c);
    }
    assert!(pf.is_idle());
}

#[test]
fn fills_window_around_centre() {
    let loader = CountingLoader::new();
    let mut pf = Prefetcher::new(paths(100), 3);
    pf.set_centre(50);
    wait_idle(&mut pf, &loader);

    // Window is 47..=53 inclusive: 7 slots.
    for i in 47..=53 {
        assert_eq!(pf.state(i), State::Ready, "index {i} should be ready");
    }
    assert_eq!(pf.state(46), State::Absent);
    assert_eq!(pf.state(54), State::Absent);
    assert_eq!(loader.calls.get(), 7);
}

#[test]
fn window_clamps_at_collection_edges() {
    let loader = CountingLoader::new();
    let mut pf = Prefetcher::new(paths(5), 10);
    pf.set_centre(0);
    wait_idle(&mut pf, &loader);
    // Only 5 paths exist, so only 5 decodes despite radius 10.
    assert_eq!(loader.calls.get(), 5);
    for i in 0..5 {
        assert_eq!(pf.state(i), State::Ready);
    }
}

#[test]
fn take_ready_delivers_once_then_reports_collected() {
    let loader = CountingLoader::new();
    let mut pf = Prefetcher::new(paths(20), 2);
    pf.set_centre(10);
    wait_idle(&mut pf, &loader);

    let first = pf.take_ready();
    assert_eq!(first.len(), 5, "8..=12");
    for i in 8..=12 {
        assert_eq!(pf.state(i), State::Collected);
    }
    // Second call yields nothing: pixels are handed over exactly once.
    assert!(pf.take_ready().is_empty());
    assert_eq!(pf.resident(), 0, "no pixels retained after collection");
}

#[test]
fn eviction_bounds_resident_pixels() {
    let loader = CountingLoader::new();
    let mut pf = Prefetcher::new(paths(1000), 2);
    // Walk a long way without ever collecting.
    for c in 0..200 {
        pf.set_centre(c);
        wait_idle(&mut pf, &loader);
        assert!(
            pf.resident() <= 5,
            "resident {} exceeded window of 5 at centre {c}",
            pf.resident()
        );
    }
}

#[test]
fn moving_window_leaves_only_the_final_window_warm() {
    // A fast-moving cursor must not leave slots behind anywhere it passed through.
    let loader = CountingLoader::new();
    let mut pf = Prefetcher::new(paths(500), 4);
    let mut busy = Vec::new();
    for c in (0..200).step_by(7) {
        pf.set_centre(c);
        // Two workers, each of which is still decoding when the window moves on.
        if busy.len() < 2 {
            busy.extend(pf.claim());
        }
    }
    pf.set_centre(400);
    for c in busy {
        finish(&mut pf, &loader, c);
    }
    wait_idle(&mut pf, &loader);

    for i in 396..=404 {
        assert_eq!(pf.state(i), State::Ready, "final window must be warm at {i}");
    }
    // Nothing outside the final window survives.
    assert_eq!(pf.state(100), State::Absent);
    assert_eq!(pf.state(395), State::Absent);
    assert_eq!(pf.state(405), State::Absent);
}

#[test]
fn in_flight_decode_is_discarded_when_the_window_moves_away() {
    let loader = CountingLoader::new();
    let mut pf = Prefetcher::new(paths(500), 4);
    pf.set_centre(50);
    let busy = [pf.claim().unwrap(), pf.claim().unwrap()];
    assert_eq!(
        pf.stats().decoded,
        0,
        "test setup: no decode should have finished yet"
    );

    pf.set_centre(400);
    for c in busy {
        finish(&mut pf, &loader, c);
    }
    wait_idle(&mut pf, &loader);

    let st = pf.stats();
    assert!(
        st.discarded >= 2,
        "both in-flight decodes should have been thrown away, got {st:?}"
    );
    // And the destination is still correctly warm afterwards.
    for i in 396..=404 {
        assert_eq!(pf.state(i), State::Ready, "index {i}");
    }
}

#[test]
fn failures_are_remembered_and_not_retried() {
    let loader = FlakyLoader { missing: vec![10] };
    let mut pf = Prefetcher::new(paths(20), 2);
    pf.set_centre(10);
    wait_idle(&mut pf, &loader);

    assert_eq!(pf.state(10), State::Failed);
    assert!(pf.failure(10).unwrap().contains("No such file"));
    assert_eq!(pf.failed_indices(), vec![10]);
    // Neighbours still load.
    assert_eq!(pf.state(9), State::Ready);
    assert_eq!(pf.state(11), State::Ready);

    // Re-centring on the same spot must not re-attempt the failed slot.
    let before = pf.stats().failed;
    pf.set_centre(10);
    wait_idle(&mut pf, &loader);
    assert_eq!(pf.stats().failed, before, "failed slot must not be retried");
    assert_eq!(pf.state(10), State::Failed);
}

/// An empty collection has no window at all: a numeric answer would queue an index that
/// nothing wants, and that slot would stay queued for ever.
#[test]
fn empty_collection_does_not_wedge_a_slot() {
    let loader = CountingLoader::new();
    let mut pf = Prefetcher::new(Vec::new(), 5);
    pf.set_centre(0);
    wait_idle(&mut pf, &loader);
    assert_eq!(pf.state(0), State::Absent, "no slot may exist");
    assert_eq!(loader.calls.get(), 0);
}

/// Leaving and re-entering an index mid-decode must not let two workers decode it, nor drop
/// the image that the first one publishes.
#[test]
fn window_leaving_and_returning_mid_decode_keeps_the_image() {
    let loader = CountingLoader::new();
    let mut pf = Prefetcher::new(paths(200), 1);
    // Start decoding around 50, then flee and come straight back while in flight.
    pf.set_centre(50);
    let busy = [pf.claim().unwrap(), pf.claim().unwrap()];
    pf.set_centre(150);
    pf.set_centre(50);
    for c in busy {
        finish(&mut pf, &loader, c);
    }
    wait_idle(&mut pf, &loader);

    for i in 49..=51 {
        assert_eq!(
            pf.state(i),
            State::Ready,
            "index {i} must be ready, not silently dropped"
        );
    }
    assert_eq!(loader.calls.get(), 3, "nothing is decoded twice");
}

/// A centre past the end (a stale index after the tree shrank) must clamp rather than produce
/// an empty or panicking window.
#[test]
fn centre_beyond_end_clamps() {
    let loader = CountingLoader::new();
    let mut pf = Prefetcher::new(paths(10), 2);
    pf.set_centre(9_999);
    wait_idle(&mut pf, &loader);
    // Clamped to index 9, so 7..=9 are warm.
    for i in 7..=9 {
        assert_eq!(pf.state(i), State::Ready, "index {i} should be ready");
    }
    assert_eq!(pf.state(6), State::Absent);
}

#[test]
fn empty_collection_is_harmless() {
    let loader = CountingLoader::new();
    let mut pf = Prefetcher::new(Vec::new(), 5);
    pf.set_centre(0);
    wait_idle(&mut pf, &loader);
    assert_eq!(loader.calls.get(), 0);
    assert_eq!(pf.state(0), State::Absent);
}

/// Hovering a distant row must decode it without disturbing the window.
#[test]
fn hint_decodes_outside_the_window_and_survives() {
    let loader = CountingLoader::new();
    let mut pf = Prefetcher::new(paths(200), 2);
    pf.set_centre(10);
    wait_idle(&mut pf, &loader);
    assert_eq!(pf.state(150), State::Absent);

    pf.hint(150);
    wait_idle(&mut pf, &loader);
    assert_eq!(pf.state(150), State::Ready, "hovered row should be decoded");
    // The window itself is untouched.
    for i in 8..=12 {
        assert_eq!(pf.state(i), State::Ready, "index {i}");
    }

    // Moving the window nearby must not evict the hint.
    pf.set_centre(11);
    wait_idle(&mut pf, &loader);
    assert_eq!(pf.state(150), State::Ready, "hint must survive a window move");
}

#[test]
fn only_one_hint_is_retained() {
    // Sweeping the pointer down a list must not accumulate slots without bound.
    let loader = CountingLoader::new();
    let mut pf = Prefetcher::new(paths(500), 1);
    pf.set_centre(0);
    wait_idle(&mut pf, &loader);

    for i in 100..140 {
        pf.hint(i);
        wait_idle(&mut pf, &loader);
    }
    // Window is 0..=1 plus at most one hint.
    assert!(
        pf.resident() <= 3,
        "resident {} suggests hints are accumulating",
        pf.resident()
    );
    assert_eq!(pf.state(139), State::Ready, "the latest hint is warm");
    assert_eq!(pf.state(120), State::Absent, "older hints are dropped");
}

#[test]
fn clear_hint_lets_the_slot_be_evicted() {
    let loader = CountingLoader::new();
    let mut pf = Prefetcher::new(paths(100), 1);
    pf.set_centre(5);
    pf.hint(50);
    wait_idle(&mut pf, &loader);
    assert_eq!(pf.state(50), State::Ready);

    pf.clear_hint();
    pf.set_centre(6);
    wait_idle(&mut pf, &loader);
    assert_eq!(pf.state(50), State::Absent, "cleared hint should be evicted");
}

#[test]
fn hint_on_out_of_range_index_is_ignored() {
    let loader = CountingLoader::new();
    let mut pf = Prefetcher::new(paths(10), 1);
    pf.set_centre(0);
    pf.hint(9_999);
    wait_idle(&mut pf, &loader);
    assert_eq!(pf.state(9_999), State::Absent);
}

/// The renderer defers uploads to bound per-frame work, so deferred pixels must be
/// returnable rather than lost.
#[test]
fn put_back_makes_an_image_collectable_again() {
    let loader = CountingLoader::new();
    let mut pf = Prefetcher::new(paths(50), 2);
    pf.set_centre(10);
    wait_idle(&mut pf, &loader);

    let mut ready = pf.take_ready();
    assert!(ready.len() >= 3);
    let (idx, img) = ready.pop().unwrap();
    pf.put_back(idx, img);

    assert_eq!(pf.state(idx), State::Ready, "returned image is available again");
    let again = pf.take_ready();
    assert!(again.iter().any(|(i, _)| *i == idx), "must be collectable");
}

#[test]
fn put_back_of_an_evicted_index_is_dropped() {
    let loader = CountingLoader::new();
    let mut pf = Prefetcher::new(paths(200), 2);
    pf.set_centre(10);
    wait_idle(&mut pf, &loader);
    let (idx, img) = pf.take_ready().pop().unwrap();

    // Move far away, then try to return the stale image.
    pf.set_centre(150);
    wait_idle(&mut pf, &loader);
    pf.put_back(idx, img);
    assert_eq!(pf.state(idx), State::Absent, "stale image must not be resurrected");
}

#[test]
fn repeated_recentre_on_same_index_is_idempotent() {
    let loader = CountingLoader::new();
    let mut pf = Prefetcher::new(paths(50), 3);
    pf.set_centre(20);
    wait_idle(&mut pf, &loader);
    let after_first = loader.calls.get();

    for _ in 0..10 {
        pf.set_centre(20);
        wait_idle(&mut pf, &loader);
    }
    assert_eq!(
        loader.calls.get(),
        after_first,
        "already-decoded slots must not be decoded again"
    );
}

#[test]
fn the_nearest_image_is_decoded_first() {
    let mut pf = Prefetcher::new(paths(100), 2);
    pf.set_centre(50);
    let order: Vec<usize> = std::iter::from_fn(|| pf.claim()).map(|c| c.index).collect();
    assert_eq!(order, vec![50, 49, 51, 48, 52]);
}

#[test]
fn a_hint_outranks_the_window() {
    let mut pf = Prefetcher::new(paths(100), 1);
    pf.set_centre(50);
    let first = pf.claim().unwrap();
    pf.hint(3);
    assert_eq!(first.index, 50);
    assert_eq!(pf.claim().unwrap().index, 3);
}

#[test]
fn a_decode_for_an_earlier_list_discards_itself() {
    let loader = CountingLoader::new();
    let mut pf = Prefetcher::new(paths(10), 0);
    pf.set_centre(4);
    let stale = pf.claim().unwrap();
    // The list changes, and the same index is being decoded again.
    pf.reset(vec!["/other/0.jpg".to_string(); 10], 4);
    let fresh = pf.claim().unwrap();
    finish(&mut pf, &loader, stale);
    assert_eq!(pf.state(4), State::Decoding, "the stale image must not be shown");
    assert_eq!(pf.stats().discarded, 1);
    assert_eq!(fresh.path, "/other/0.jpg");
    finish(&mut pf, &loader, fresh);
    assert_eq!(pf.state(4), State::Ready);
}

#[test]
fn a_lost_image_can_be_required_again() {
    let loader = CountingLoader::new();
    let mut pf = Prefetcher::new(paths(10), 0);
    pf.set_centre(4);
    wait_idle(&mut pf, &loader);
    pf.take_ready();
    pf.require(4);
    assert_eq!(pf.state(4), State::Queued);
    wait_idle(&mut pf, &loader);
    assert_eq!(pf.state(4), State::Ready);
    // Neither pixels that are there nor an index out of range are asked for again.
    pf.require(4);
    pf.require(99);
    assert_eq!(pf.state(4), State::Ready);
    assert_eq!(pf.state(99), State::Absent);
}

#[test]
fn the_window_is_inclusive_and_clamped() {
    let mut pf = Prefetcher::new(paths(10), 2);
    assert_eq!(pf.window(), Some((0, 2)));
    pf.set_centre(8);
    assert_eq!(pf.window(), Some((6, 9)));
    assert!(pf.in_window(6) && !pf.in_window(5));
    pf.hint(1);
    assert!(pf.wanted(1) && !pf.wanted(2));
    pf.set_radius(0, 8);
    assert_eq!(pf.window(), Some((8, 8)));
    assert_eq!(Prefetcher::new(Vec::new(), 3).window(), None);
}

#[test]
fn setting_the_radius_it_has_still_moves_the_window() {
    let loader = CountingLoader::new();
    let mut pf = Prefetcher::new(paths(100), 2);
    pf.set_centre(10);
    wait_idle(&mut pf, &loader);
    pf.set_radius(2, 50);
    for i in 48..=52 {
        assert_ne!(pf.state(i), State::Absent, "index {i}");
    }
    assert_eq!(pf.state(10), State::Absent);
}

#[test]
fn what_is_required_is_decoded_wherever_the_window_is() {
    let loader = CountingLoader::new();
    let mut pf = Prefetcher::new(paths(100), 2);
    pf.set_centre(10);
    wait_idle(&mut pf, &loader);
    let before = loader.calls.get();
    pf.require(60);
    assert_eq!(pf.state(60), State::Queued);
    wait_idle(&mut pf, &loader);
    assert_eq!(pf.state(60), State::Ready);
    assert_eq!(loader.calls.get(), before + 1);
    // Its pixels are handed over like any others, and can be required once more.
    assert!(pf.take_ready().iter().any(|(i, _)| *i == 60));
    assert_eq!(pf.state(60), State::Collected);
    pf.require(60);
    wait_idle(&mut pf, &loader);
    assert_eq!(pf.state(60), State::Ready);
    // The window evicts it like any others, too.
    pf.set_centre(11);
    assert_eq!(pf.state(60), State::Absent);
}

#[test]
fn what_is_required_outlives_a_move_of_the_window() {
    let loader = CountingLoader::new();
    let mut pf = Prefetcher::new(paths(100), 1);
    pf.set_centre(10);
    pf.require(60);
    pf.require(60);
    pf.set_centre(30);
    assert_eq!(pf.state(60), State::Queued);
    let c = pf.claim().unwrap();
    assert_eq!(c.index, 30);
    assert_eq!(pf.claim().unwrap().index, 60, "ahead of the rest of the window");
    // A decode in flight is kept as well once it is required.
    pf.set_centre(80);
    assert!(!pf.wanted(30));
    pf.require(30);
    finish(&mut pf, &loader, c);
    assert_eq!(pf.state(30), State::Ready);
    // Another list of paths makes it void.
    pf.require(5);
    pf.reset(paths(100), 80);
    assert_eq!(pf.state(5), State::Absent);
}

#[test]
fn a_failed_load_is_tried_again_when_required() {
    let mut pf = Prefetcher::new(paths(100), 1);
    pf.set_centre(10);
    pf.require(60);
    wait_idle(&mut pf, &FlakyLoader { missing: vec![60] });
    assert_eq!(pf.state(60), State::Failed);
    pf.require(60);
    wait_idle(&mut pf, &FlakyLoader { missing: Vec::new() });
    assert_eq!(pf.state(60), State::Ready);
}

#[test]
fn a_waiting_hint_keeps_its_job_when_the_window_moves() {
    let mut pf = Prefetcher::new(paths(100), 1);
    pf.set_centre(10);
    pf.hint(60);
    pf.set_centre(11);
    assert_eq!(pf.state(60), State::Queued);
    let order: Vec<usize> = std::iter::from_fn(|| pf.claim()).map(|c| c.index).collect();
    assert_eq!(order, vec![11, 60, 10, 12]);
}

#[test]
fn a_hint_that_lost_its_job_gets_it_back() {
    let loader = CountingLoader::new();
    let mut pf = Prefetcher::new(paths(100), 1);
    pf.set_centre(10);
    pf.hint(60);
    pf.clear_hint();
    while let Some(c) = pf.claim() {
        finish(&mut pf, &loader, c);
    }
    assert_eq!(pf.state(60), State::Queued, "passed over, for want of the hint");
    pf.hint(60);
    wait_idle(&mut pf, &loader);
    assert_eq!(pf.state(60), State::Ready);
}

#[test]
fn exactly_the_window_is_filled() {
    let loader = FlakyLoader { missing: vec![49] };
    let mut pf = Prefetcher::new(paths(100), 2);
    pf.set_centre(3);
    wait_idle(&mut pf, &loader);
    pf.set_centre(50);
    wait_idle(&mut pf, &loader);
    for i in 0..100 {
        let expected = match i {
            49 => State::Failed,
            48..=52 => State::Ready,
            _ => State::Absent,
        };
        assert_eq!(pf.state(i), expected, "index {i}");
    }
    let counting = CountingLoader::new();
    let mut none = Prefetcher::new(Vec::new(), 2);
    none.set_centre(0);
    wait_idle(&mut none, &counting);
    assert_eq!((none.state(0), counting.calls.get()), (State::Absent, 0));
}

#[test]
fn the_window_is_filled_whatever_was_under_way() {
    let loader = FlakyLoader { missing: vec![52] };
    let mut pf = Prefetcher::new(paths(100), 2);
    pf.set_centre(48);
    // Five workers, all of them busy when the window moves.
    let mut busy: Vec<Claim> = (0..5).map(|_| pf.claim().unwrap()).collect();
    pf.set_centre(51);
    let late = pf.claim().unwrap();
    while let Some(c) = busy.pop() {
        finish(&mut pf, &loader, c);
    }
    assert!(!pf.is_idle());
    while let Some(c) = pf.claim() {
        finish(&mut pf, &loader, c);
    }
    finish(&mut pf, &loader, late);
    assert!(pf.is_idle());
    for i in 0..100 {
        let expected = match i {
            52 => State::Failed,
            49..=53 => State::Ready,
            _ => State::Absent,
        };
        assert_eq!(pf.state(i), expected, "index {i}");
    }
}

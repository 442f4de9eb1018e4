use cull::decode::Image;
use cull::gpu::{wants_texture, Cache, Step, TextureCache, POOL_LIMIT};
use cull::icc::Verdict;
use cull::tiff::ColorSpace;

/// Eviction is tested on `Cache<usize>`; `upload` is the only part needing a device.
fn cache_with(indices: &[usize], capacity: usize) -> Cache<usize> {
    let mut c = Cache::new(capacity);
    for &i in indices {
        c.insert(i, i);
    }
    c
}

/// Total values ever evicted, so tests can assert nothing is silently dropped.
fn insert_all(c: &mut Cache<usize>, indices: &[usize]) -> Vec<usize> {
    let mut out = Vec::new();
    for &i in indices {
        out.extend(c.insert(i, i));
    }
    out
}

#[test]
fn new_cache_is_empty() {
    let c: Cache<usize> = Cache::new(21);
    assert!(c.is_empty());
    assert_eq!(c.len(), 0);
    assert!(!c.contains(0));
    assert!(c.get(0).is_none());
}

#[test]
fn capacity_is_at_least_one() {
    // A zero-capacity cache could never hold the image being displayed.
    assert_eq!(Cache::<usize>::new(0).capacity(), 1);
}

#[test]
fn retain_window_drops_everything_outside() {
    let mut c = cache_with(&[0, 5, 9, 10, 11, 15, 100], 100);
    let evicted = c.retain_window_with(10, 2, None);
    assert_eq!(evicted.len(), 4, "evicted values must be returned for recycling");
    assert_eq!(c.len(), 3);
    for i in [9, 10, 11] {
        assert!(c.contains(i), "index {i} is inside the window");
    }
    for i in [0, 5, 15, 100] {
        assert!(!c.contains(i), "index {i} should have been evicted");
    }
}

#[test]
fn retain_window_clamps_at_zero() {
    // A window around index 1 must not underflow.
    let mut c = cache_with(&[0, 1, 2, 8], 100);
    c.retain_window_with(1, 5, None);
    assert!(c.contains(0) && c.contains(1) && c.contains(2));
    assert!(!c.contains(8));
}

#[test]
fn capacity_evicts_the_furthest_entry() {
    let mut c: Cache<usize> = Cache::new(3);
    for i in [10, 11, 12] {
        c.insert(i, i);
    }
    assert_eq!(c.len(), 3);
    // Inserting near 10 should evict 12, the furthest from the new index.
    c.insert(9, 9);
    assert_eq!(c.len(), 3);
    assert!(c.contains(9) && c.contains(10) && c.contains(11));
    assert!(!c.contains(12), "furthest entry should be evicted");
}

#[test]
fn newly_inserted_entry_is_never_the_eviction_victim() {
    // Even inserting a distant index must keep that index, or the image the user
    // just navigated to would vanish immediately.
    let mut c: Cache<usize> = Cache::new(2);
    c.insert(0, 0);
    c.insert(1, 1);
    c.insert(500, 500);
    assert!(c.contains(500), "the just-inserted entry must survive");
    assert_eq!(c.len(), 2);
}

#[test]
fn clear_empties_the_cache_and_returns_values() {
    let mut c = cache_with(&[1, 2, 3], 10);
    let out = c.clear();
    assert!(c.is_empty());
    assert_eq!(out.len(), 3, "cleared values must be returned for recycling");
}

#[test]
fn retain_window_keeps_the_extra_index() {
    // The hovered row lives far outside the navigation window; without the
    // exemption its texture was evicted the instant after upload.
    let mut c = cache_with(&[9, 10, 11, 500], 100);
    c.retain_window_with(10, 1, Some(500));
    assert!(c.contains(500), "hovered index must survive eviction");
    assert_eq!(c.len(), 4);

    // And without the exemption it goes.
    c.retain_window_with(10, 1, None);
    assert!(!c.contains(500));
}

#[test]
fn eviction_returns_every_displaced_value() {
    // Nothing may be dropped on the floor, or textures could not be recycled.
    let mut c: Cache<usize> = Cache::new(3);
    let evicted = insert_all(&mut c, &[1, 2, 3, 4, 5]);
    assert_eq!(c.len(), 3);
    assert_eq!(evicted.len(), 2, "two inserts must have displaced something");
}

#[test]
fn replacing_an_index_returns_the_old_value() {
    let mut c: Cache<usize> = Cache::new(4);
    c.insert(7, 7);
    let evicted = c.insert(7, 70);
    assert_eq!(evicted, vec![7], "the replaced value must come back");
    assert_eq!(*c.get(7).unwrap(), 70);
    assert_eq!(c.len(), 1);
}

#[test]
fn capacity_of_one_still_works() {
    let mut c: Cache<usize> = Cache::new(1);
    c.insert(4, 4);
    c.insert(5, 5);
    assert_eq!(c.len(), 1);
    assert!(c.contains(5), "the newest insert wins");
}

fn image(width: u32, height: u32) -> Box<Image> {
    Box::new(Image {
        width,
        height,
        rgba: (0..width * height * 4).map(|i| i as u8).collect(),
        orientation: 6,
        icc: None,
        color_space: Some(ColorSpace::AdobeRgb),
        scale_denom: 1,
        native_width: width,
        native_height: height,
    })
}

/// Write every band, returning the rows written per upload, in order.
fn pump(c: &mut TextureCache<u32>, priority: usize) -> Vec<(usize, u32, u32)> {
    pump_within(c, priority, false)
}

/// Write what a frame writes whose time is up from the start, or never.
fn pump_within(c: &mut TextureCache<u32>, priority: usize, time_up: bool) -> Vec<(usize, u32, u32)> {
    c.start_pump(priority);
    let mut out = Vec::new();
    let mut wrote = false;
    loop {
        match c.next_band(priority, wrote, time_up) {
            Step::Stop => return out,
            Step::Write(band) => {
                assert_eq!(c.band_pixels(&band).len(), (band.rows * band.width * 4) as usize);
                out.push((band.index, band.row, band.rows));
                c.band_written(band.rows);
                wrote = true;
            }
            Step::TooShort(..) => panic!("every image here has all its pixels"),
            Step::Gone(..) => {}
        }
    }
}

#[test]
fn a_texture_is_complete_once_every_row_is_written() {
    let mut c: TextureCache<u32> = TextureCache::new(4);
    assert!(c.queue_upload(3, image(4, 5), 30).is_none());
    assert_eq!(c.pending_len(), 1);
    assert!(c.contains(3) && !c.is_complete(3));

    assert_eq!(pump(&mut c, 3), vec![(3, 0, 5)]);
    assert!(c.is_complete(3));
    assert_eq!(c.pending_len(), 0);
    let e = c.get(3).unwrap();
    assert_eq!((e.texture, e.stored, e.orientation.value()), (30, (4, 5), 6));
    assert_eq!(e.colour, Verdict::NotSrgb("EXIF says Adobe RGB"));
}

#[test]
fn the_image_on_screen_is_uploaded_first() {
    let mut c: TextureCache<u32> = TextureCache::new(8);
    for i in [9, 2, 5, 6] {
        c.queue_upload(i, image(1, 1), i as u32);
    }
    let order: Vec<usize> = pump(&mut c, 5).into_iter().map(|b| b.0).collect();
    assert_eq!(order, vec![5, 6, 2, 9]);
}

#[test]
fn big_images_go_up_in_bands() {
    // 1024 pixels a row are 4096 bytes, so a band of 4 MiB holds 1024 rows.
    let mut c: TextureCache<u32> = TextureCache::new(2);
    c.queue_upload(0, image(1024, 2500), 0);
    assert_eq!(pump(&mut c, 0), vec![(0, 0, 1024), (0, 1024, 1024), (0, 2048, 452)]);
}

#[test]
fn only_the_image_on_screen_may_exceed_the_budget() {
    let mut c: TextureCache<u32> = TextureCache::new(4);
    c.queue_upload(1, image(1, 1), 1);
    c.start_pump(0);
    // Something was written and time is up: a neighbour waits.
    assert!(matches!(c.next_band(0, true, true), Step::Stop));
    assert_eq!(c.pending_len(), 1);
}

#[test]
fn the_image_on_screen_is_finished_though_the_time_is_up() {
    let mut c: TextureCache<u32> = TextureCache::new(4);
    c.queue_upload(7, image(1, 1), 7);
    c.queue_upload(5, image(1024, 2500), 5);
    c.queue_upload(4, image(1, 1), 4);
    let written = pump_within(&mut c, 5, true);
    assert_eq!(written, vec![(5, 0, 1024), (5, 1024, 1024), (5, 2048, 452)]);
    assert!(c.is_complete(5) && !c.is_complete(4) && !c.is_complete(7));
    // Then the neighbours make progress, one band a frame.
    assert_eq!(pump_within(&mut c, 5, true), vec![(4, 0, 1)]);
    assert_eq!(pump_within(&mut c, 5, true), vec![(7, 0, 1)]);
    assert_eq!(pump_within(&mut c, 5, true), vec![]);
}

#[test]
fn evicted_textures_are_pooled_and_reused_by_size() {
    let mut c: TextureCache<u32> = TextureCache::new(10);
    for i in 0..6usize {
        c.queue_upload(i, image(2, 3), 100 + i as u32);
    }
    pump(&mut c, 0);
    c.retain_window_with(0, 0, None);
    assert_eq!(c.len(), 1);
    assert_eq!(c.pooled(), POOL_LIMIT);
    assert!(c.take_pooled(3, 2).is_none(), "another size is no use");
    assert!(c.take_pooled(2, 3).is_some());
    assert_eq!(c.pooled(), POOL_LIMIT - 1);
    c.clear();
    assert!(c.is_empty());
}

#[test]
fn a_second_upload_of_an_index_hands_back_the_first_buffer() {
    let mut c: TextureCache<u32> = TextureCache::new(4);
    c.queue_upload(7, image(1, 2), 1);
    let old = c.queue_upload(7, image(2, 2), 2).expect("the pixels that were not uploaded");
    assert_eq!(old.len(), 8);
    assert_eq!(c.pending_len(), 1);
}

#[test]
fn an_evicted_upload_is_dropped_and_its_buffer_returned() {
    let mut c: TextureCache<u32> = TextureCache::new(4);
    c.queue_upload(7, image(1, 2), 1);
    c.retain_window_with(0, 1, None);
    let retired = c.start_pump(0);
    assert_eq!(retired.len(), 1);
    assert_eq!(retired[0].len(), 8);
    assert_eq!(c.pending_len(), 0);
}

#[test]
fn empty_images_get_no_texture() {
    assert!(wants_texture(&image(1, 1)));
    assert!(!wants_texture(&image(0, 5)));
    assert!(!wants_texture(&image(5, 0)));
}

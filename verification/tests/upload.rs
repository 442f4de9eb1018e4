use cull::app::{App, Layout};
use cull::decode::Image;
use cull::gpu::TextureCache;
use cull::icc::Verdict;
use cull::prefetch::{Prefetcher, State};
use cull::scan::{scan_listings, Listing};
use cull::tiff::ColorSpace;
use cull::upload::{finish_uploads, Batch, MAX_IN_FLIGHT, TEXTURE_CACHE};

fn image() -> Image {
    Image {
        width: 2,
        height: 3,
        rgba: vec![0; 24],
        orientation: 6,
        icc: None,
        color_space: Some(ColorSpace::AdobeRgb),
        scale_denom: 1,
        native_width: 2,
        native_height: 3,
    }
}

fn library(n: usize) -> (App, Prefetcher) {
    let files = (0..n).map(|i| format!("/r/{i:03}.JPG")).collect();
    let (mut app, mut ring) =
        App::new("/r".to_string(), scan_listings(vec![Listing { dir: "/r".to_string(), files }]), 10);
    app.warm_full_window(&mut ring);
    (app, ring)
}

fn decode_all(ring: &mut Prefetcher) {
    while let Some(c) = ring.claim() {
        ring.publish(c.index, c.epoch, Ok(image()));
    }
}

#[test]
fn uploads_are_taken_nearest_first_and_capped() {
    let (mut app, mut ring) = library(40);
    app.select(20, 0, &mut ring);
    decode_all(&mut ring);
    let mut batch = Batch::new(ring.take_ready(), 20);
    assert!(!batch.is_empty());
    let mut order = Vec::new();
    while let Some((index, _)) = batch.next(0, 20, &mut ring) {
        order.push(index);
    }
    assert_eq!(order.len(), MAX_IN_FLIGHT);
    assert_eq!(order[0], 20);
    for i in &order {
        assert!(i.abs_diff(20) <= 2);
        assert_eq!(ring.state(*i), State::Collected);
    }
    // The rest is back in the ring for a later frame.
    assert_eq!(ring.take_ready().len(), 21 - MAX_IN_FLIGHT);
}

#[test]
fn the_image_being_looked_at_is_never_put_off() {
    let (mut app, mut ring) = library(40);
    app.select(20, 0, &mut ring);
    decode_all(&mut ring);
    let mut batch = Batch::new(ring.take_ready(), 20);
    assert_eq!(batch.next(99, 20, &mut ring).map(|(i, _)| i), Some(20));
    assert!(batch.next(99, 20, &mut ring).is_none());
    assert!(batch.is_empty());
}

#[test]
fn a_resident_texture_is_noted_with_its_colours() {
    let (mut app, mut ring) = library(3);
    let mut textures: TextureCache<u8> = TextureCache::new(TEXTURE_CACHE);
    textures.queue_upload(0, Box::new(image()), 1);
    let layout = finish_uploads(&mut textures, &mut app, &mut ring, None);
    // Turned by a quarter.
    assert_eq!(layout, Layout::Fit { width: 3, height: 2 });
    let shown = app.shown().unwrap();
    assert_eq!((shown.index, shown.stored), (0, (2, 3)));
    assert_eq!(shown.colour, Verdict::NotSrgb("EXIF says Adobe RGB"));
    // A second time the view is left alone.
    assert_eq!(finish_uploads(&mut textures, &mut app, &mut ring, None), Layout::Keep);
}

#[test]
fn a_lost_texture_is_decoded_again() {
    let (mut app, mut ring) = library(3);
    decode_all(&mut ring);
    ring.take_ready();
    assert_eq!(ring.state(0), State::Collected);
    let mut textures: TextureCache<u8> = TextureCache::new(TEXTURE_CACHE);
    finish_uploads(&mut textures, &mut app, &mut ring, None);
    assert_eq!(ring.state(0), State::Queued);
}

#[test]
fn textures_outside_the_window_go_but_the_hovered_one_stays() {
    let (mut app, mut ring) = library(100);
    let mut textures: TextureCache<u8> = TextureCache::new(TEXTURE_CACHE);
    for i in [0, 11, 12, 80] {
        textures.queue_upload(i, Box::new(image()), 1);
    }
    finish_uploads(&mut textures, &mut app, &mut ring, Some(80));
    assert!(textures.contains(0) && textures.contains(11) && textures.contains(80));
    assert!(!textures.contains(12));
}

use cull::app::{Action, App};
use cull::prefetch::{Prefetcher, State};
use cull::scan::{
    flatten, group_files, scan_listings, DirNode, FileMeta, Listing, MetaStore, WallTime,
};
use cull::tiff::ColorSpace;
use cull::trash::Bin;
use cull::ui::{
    build_rows, dir_label, row_label, row_position, row_text, row_tone, status, Collapsed,
    Indicator, Picked, Row, Sidebar, Tone, HOVER_DELAY, KIND_W, SIZE_W, STEM_W,
};

/// Character offset at which the size column ends.
const SIZE_END: usize = STEM_W + 1 + KIND_W + SIZE_W;

/// Two directories, three groups each.
fn two_directories() -> Vec<DirNode> {
    let listing = |d: &str| Listing {
        dir: format!("/td/{d}"),
        files: (0..3).map(|i| format!("/td/{d}/{d}{i}.JPG")).collect(),
    };
    scan_listings(vec![listing("a"), listing("b")])
}

/// Row flattening is pure and must keep group indices aligned with the app's
/// ordering even when directories are collapsed.
#[test]
fn indices_stay_aligned_when_directories_are_collapsed() {
    let dirs = two_directories();
    let groups = flatten(&dirs);
    assert_eq!(groups.len(), 6);

    // Collapsing the first directory must not shift the second's indices.
    let mut collapse_first = Collapsed::new();
    collapse_first.toggle(&dirs[0].path);

    let rows = build_rows(&dirs, &collapse_first);
    let seen: Vec<usize> = rows
        .iter()
        .filter_map(|r| match r {
            Row::Group { index, .. } => Some(*index),
            Row::Dir { .. } => None,
        })
        .collect();
    // Only the second directory is visible, and it still reports indices 3..6.
    assert_eq!(seen, vec![3, 4, 5]);
    for i in &seen {
        assert!(*i < groups.len());
    }
    for row in &rows {
        if let Row::Group { dir, offset, index } = *row {
            assert_eq!(dirs[dir].groups[offset].stem, groups[index].stem);
        }
    }
    assert_eq!(row_position(&rows, 4), Some(3));
    assert_eq!(row_position(&rows, 1), None, "hidden rows have no position");
}

#[test]
fn opening_a_directory_again_shows_its_rows() {
    let dirs = two_directories();
    let mut collapsed = Collapsed::default();
    let all = build_rows(&dirs, &collapsed);
    assert_eq!(all.len(), 8);
    assert_eq!(all[4], Row::Dir { dir: 1, collapsed: false });
    collapsed.toggle("/td/b/");
    assert!(collapsed.contains("/td/b"));
    assert_eq!(build_rows(&dirs, &collapsed).len(), 5);
    collapsed.toggle("/td/b");
    assert_eq!(build_rows(&dirs, &collapsed), all);
}

/// The columns only line up if every field is padded to a fixed width, so check that
/// the size column lands at the same offset regardless of stem or kind length.
#[test]
fn row_columns_align_across_rows() {
    let rows = [
        row_text("A1", "JPG", "1.0 MB", "2026-08-09 17:44"),
        row_text("A6701135_Export", "JPG+ARW", "41.0 MB", "2026-08-10 10:49"),
        row_text("A6709216", "ARW", "31.8 MB", "-"),
    ];
    for r in &rows {
        // The size field is right-aligned, so it always ends at the same offset.
        let size_field = &r[SIZE_END - SIZE_W..SIZE_END];
        assert!(
            size_field.trim_start().ends_with("MB") || size_field.trim() == "-",
            "size column misaligned in {r:?}: got {size_field:?}"
        );
        // Two spaces separate size from the timestamp.
        assert_eq!(&r[SIZE_END..SIZE_END + 2], "  ", "separator moved in {r:?}");
    }
}

/// An over-long stem must not shift the later columns for that row alone; it pushes
/// them right, which is acceptable, but must not panic or truncate mid-character.
#[test]
fn over_long_stem_does_not_panic() {
    let long = "A".repeat(80);
    let r = row_text(&long, "JPG+ARW", "41.0 MB", "2026-08-10 10:49");
    assert!(r.starts_with(&long));
    assert!(r.contains("41.0 MB"));
}

#[test]
fn dir_path_without_file_name_still_labels() {
    // A root path has no file name; the label must fall back rather than be blank.
    let name = dir_label("/", 3, false);
    assert!(!name.is_empty());
    assert_eq!(name, "\u{25bc} /  (3)");
}

#[test]
fn directory_rows_name_the_directory() {
    assert_eq!(dir_label("/photos/2026", 12, true), "\u{25b6} 2026  (12)");
    assert_eq!(dir_label("/photos/2026/", 0, false), "\u{25bc} 2026  (0)");
}

#[test]
fn rows_show_what_is_known_of_a_group() {
    let g = group_files("/d", &vec!["/d/x.JPG".to_string(), "/d/x.ARW".to_string()]);
    let mut meta = MetaStore::new();
    assert_eq!(row_label(&g[0], &meta), row_text("x", "JPG+ARW", "-", "-"));
    let at = |secs| Some(WallTime { secs, nanos: 0 });
    meta.publish(&vec![
        ("/d/x.JPG".to_string(), FileMeta { size: 11_000_000, modified: at(1_724_328_000) }),
        ("/d/x.ARW".to_string(), FileMeta { size: 32_400_000, modified: at(1_724_328_060) }),
    ]);
    assert_eq!(
        row_label(&g[0], &meta),
        "x                    JPG+ARW   43.4 MB  2024-08-22 12:00"
    );
}

#[test]
fn rows_are_toned_by_what_can_be_shown() {
    let g = group_files("/d", &vec!["/d/x.ARW".to_string(), "/d/y.JPG".to_string()]);
    assert_eq!(row_tone(&g[0], false), Tone::RawOnly);
    assert_eq!(row_tone(&g[1], false), Tone::Plain);
    assert_eq!(row_tone(&g[0], true), Tone::Failed);
}

struct NoBin;

impl Bin for NoBin {
    fn is_present(&mut self, _path: &str) -> bool {
        true
    }
    fn send(&mut self, _path: &str) -> Result<(), String> {
        Ok(())
    }
    fn restore(&mut self, _path: &str) -> Result<(), String> {
        Ok(())
    }
}

#[test]
fn the_status_bar_describes_the_image() {
    let (mut app, mut ring) = App::new("/td".to_string(), two_directories(), 3);
    app.select(4, 0, &mut ring);
    app.note_shown(4, (6192, 4128), 8, None, Some(ColorSpace::AdobeRgb));
    let s = status(&app, &ring);
    assert_eq!(s.selected, Some(("5/6".to_string(), "b1".to_string())));
    let image = s.image.unwrap();
    assert_eq!(image.size, "6192x4128 (25.6 MP)");
    assert_eq!(image.rotation, Some("rot 8".to_string()));
    assert_eq!(
        image.warning,
        Some("EXIF says Adobe RGB - shown as sRGB, colours will be off".to_string())
    );
    assert_eq!(s.mode, "mode: refit");
    assert_eq!(s.indicator, Indicator::Spinner);
    assert!(!s.scrolling && !s.armed);
    assert_eq!(s.undo, None);
    assert!(s.message.starts_with("colour: EXIF"));

    let meta = MetaStore::new();
    app.act(Action::Delete, 0, &mut ring, &mut NoBin, &meta, 0);
    assert!(status(&app, &ring).armed);
    app.act(Action::ConfirmDelete, 0, &mut ring, &mut NoBin, &meta, 0);
    assert_eq!(status(&app, &ring).undo, Some("undo (1)".to_string()));
}

#[test]
fn the_status_bar_of_nothing() {
    let (app, ring) = App::empty("/td".to_string(), 3);
    let s = status(&app, &ring);
    assert!(s.selected.is_none() && s.image.is_none());
    assert_eq!(s.message, "scanning...");
    assert_eq!(s.indicator, Indicator::Nothing);
    assert_eq!(Indicator::of(State::Failed), Indicator::Failed);
}

fn picked() -> Picked {
    Picked { selected: None, hovered: None, action: None, toggled_dir: None }
}

#[test]
fn the_list_follows_a_move_once() {
    let (mut app, mut ring) = App::new("/td".to_string(), two_directories(), 3);
    let mut bar = Sidebar::new();
    assert!(bar.follows(app.index()));
    bar.respond(&mut app, &mut ring, picked(), 0, &mut NoBin);
    assert!(!bar.follows(app.index()), "the user can scroll away now");
    app.select(2, 0, &mut ring);
    assert!(bar.follows(app.index()));
    bar.respond(&mut app, &mut ring, picked(), 0, &mut NoBin);
    // A click selects, and must not scroll the list under the pointer.
    let (e, _, _) =
        bar.respond(&mut app, &mut ring, Picked { selected: Some(5), ..picked() }, 0, &mut NoBin);
    assert!(e.image_changed);
    assert_eq!(app.index(), 5);
    assert!(!bar.follows(5));
}

#[test]
fn buttons_and_directory_rows_respond() {
    let (mut app, mut ring) = App::new("/td".to_string(), two_directories(), 3);
    let mut bar = Sidebar::new();
    let p = Picked {
        action: Some(Action::ToggleFitMode),
        toggled_dir: Some("/td/a".to_string()),
        ..picked()
    };
    let (clicked, pressed, again) = bar.respond(&mut app, &mut ring, p, 0, &mut NoBin);
    assert!(!clicked.redraw && pressed.redraw && !again);
    assert!(bar.collapsed.contains("/td/a"));
    assert_eq!(app.status, "mode: keep zoom");
}

#[test]
fn a_resting_pointer_is_hinted_once() {
    let mut ring = Prefetcher::new((0..50).map(|i| format!("/{i}.jpg")).collect(), 1);
    ring.set_centre(0);
    let mut bar = Sidebar::new();
    assert!(bar.update_hover(Some(30), 1_000, &mut ring), "not settled yet");
    assert_eq!(ring.state(30), State::Absent);
    // Moving to another row restarts the clock.
    assert!(bar.update_hover(Some(31), HOVER_DELAY, &mut ring));
    assert!(bar.update_hover(Some(31), 2 * HOVER_DELAY - 1, &mut ring));
    assert!(!bar.update_hover(Some(31), 2 * HOVER_DELAY, &mut ring));
    assert_eq!(ring.state(31), State::Queued);
    assert_eq!(bar.hinted(), Some(31));
    assert!(!bar.update_hover(Some(31), 3 * HOVER_DELAY, &mut ring));
    // Leaving the list clears the hint.
    assert!(!bar.update_hover(None, 4 * HOVER_DELAY, &mut ring));
    assert_eq!(bar.hinted(), None);
    assert!(!ring.wanted(31));
}

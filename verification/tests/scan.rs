use cull::format::{format_megapixels, format_size, format_time};
use cull::report::{shape, summarise};
use cull::scan::{
    flatten, group_files, role_for, scan_listings, split_name, FileMeta, Listing, MetaStore, Role,
    Walk, WallTime,
};

fn p(s: &str) -> String {
    s.to_string()
}

#[test]
fn splits_simple_name() {
    assert_eq!(split_name("A6709605.JPG"), ("A6709605".into(), "jpg".into()));
    assert_eq!(split_name("A6709605.ARW"), ("A6709605".into(), "arw".into()));
}

#[test]
fn double_extension_sidecar_groups_with_stem() {
    // The real RawTherapee convention, and the reason grouping is by first dot.
    assert_eq!(
        split_name("A6701113.ARW.pp3"),
        ("A6701113".into(), "pp3".into())
    );
    assert_eq!(
        split_name("A6701113.JPG.pp3"),
        ("A6701113".into(), "pp3".into())
    );
}

#[test]
fn handles_no_extension_and_hidden_files() {
    assert_eq!(split_name("README"), ("README".into(), "".into()));
    // Hidden files keep their dot so they don't all share an empty stem.
    assert_eq!(split_name(".hidden"), (".hidden".into(), "".into()));
    assert_eq!(split_name(".config.bak"), (".config".into(), "bak".into()));
}

#[test]
fn groups_a_realistic_directory() {
    let files = vec![
        p("/d/A6709605.ARW"),
        p("/d/A6709605.JPG"),
        p("/d/A6709606.ARW"),
        p("/d/A6709606.JPG"),
        p("/d/A6701113.ARW"),
        p("/d/A6701113.JPG"),
        p("/d/A6701113.ARW.pp3"),
        p("/d/A6701113.JPG.pp3"),
    ];
    let groups = group_files("/d", &files);

    assert_eq!(groups.len(), 3, "three stems");
    // Sorted by stem, so A6701113 comes first.
    assert_eq!(groups[0].stem, "A6701113");
    assert_eq!(
        groups[0].members.len(),
        4,
        "both images and both pp3 sidecars belong to the group"
    );
    // Deleting must take all four.
    assert_eq!(groups[0].all_paths().len(), 4);
    // JPEG is preferred for display over the ARW.
    assert_eq!(groups[0].display_path().unwrap(), "/d/A6701113.JPG");
    assert!(!groups[0].is_raw_only());
}

#[test]
fn raw_only_group_displays_from_raw() {
    let groups = group_files("/d", &vec![p("/d/A001.ARW")]);
    assert_eq!(groups.len(), 1);
    assert_eq!(groups[0].display_path().unwrap(), "/d/A001.ARW");
    assert!(groups[0].is_raw_only(), "must fall back to embedded preview");
}

#[test]
fn sidecar_only_group_is_dropped() {
    // An orphaned pp3 is not navigable.
    let groups = group_files("/d", &vec![p("/d/A001.ARW.pp3")]);
    assert!(groups.is_empty());
}

#[test]
fn extension_case_is_ignored() {
    let groups = group_files("/d", &vec![p("/d/a.jpg"), p("/d/b.JPG")]);
    assert_eq!(groups.len(), 2);
    for g in &groups {
        assert_eq!(g.members[0].role, Role::Displayable);
    }
}

#[test]
fn lowercase_jpeg_export_is_its_own_group() {
    // A6701135.JPG and A6701135_Export.jpg differ in stem, so they must not merge.
    let groups = group_files("/d", &vec![p("/d/A6701135.JPG"), p("/d/A6701135_Export.jpg")]);
    assert_eq!(groups.len(), 2);
    assert_eq!(groups[0].stem, "A6701135");
    assert_eq!(groups[1].stem, "A6701135_Export");
}

#[test]
fn names_with_spaces_and_many_dots() {
    let (stem, ext) = split_name("my photo.v2.final.JPG");
    assert_eq!(stem, "my photo");
    assert_eq!(ext, "jpg");
    // Grouped together with its sidecar despite the messy name.
    let groups = group_files("/d", &vec![p("/d/my photo.v2.final.JPG"), p("/d/my photo.xmp")]);
    assert_eq!(groups.len(), 1);
    assert_eq!(groups[0].members.len(), 2);
}

#[test]
fn kind_label_distinguishes_jpg_from_pairs() {
    let pair = group_files("/d", &vec![p("/d/a.JPG"), p("/d/a.ARW")]);
    assert_eq!(pair[0].kind(), "JPG+ARW");

    let jpg = group_files("/d", &vec![p("/d/b.JPG")]);
    assert_eq!(jpg[0].kind(), "JPG");

    let raw = group_files("/d", &vec![p("/d/c.ARW")]);
    assert_eq!(raw[0].kind(), "ARW");

    // Sidecars alone do not make a kind, and such groups are dropped anyway.
    assert!(group_files("/d", &vec![p("/d/d.pp3")]).is_empty());
}

#[test]
fn has_raw_and_has_jpeg_cover_both_extensions() {
    let g = group_files("/d", &vec![p("/d/a.jpeg"), p("/d/a.ARW")]);
    assert!(g[0].has_jpeg() && g[0].has_raw());
    assert_eq!(g[0].kind(), "JPG+ARW");
}

#[test]
fn size_formatting_covers_the_useful_range() {
    assert_eq!(format_size(0), "-");
    assert_eq!(format_size(5_000), "5 kB");
    assert_eq!(format_size(11_607_851), "11.6 MB");
    assert_eq!(format_size(43_405_099), "43.4 MB");
    assert_eq!(format_size(2_500_000_000), "2.50 GB");
}

#[test]
fn time_formatting_matches_known_instants() {
    let at = |secs: i64| format_time(WallTime { secs, nanos: 0 });
    assert_eq!(at(0), "1970-01-01 00:00");
    assert_eq!(at(946_684_800), "2000-01-01 00:00");
    // A leap day, which a naive conversion would get wrong.
    assert_eq!(at(1_583_020_800), "2020-03-01 00:00");
    assert_eq!(at(1_582_934_400), "2020-02-29 00:00");
    assert_eq!(at(1_724_328_000), "2024-08-22 12:00");
    // Pre-epoch is not worth handling and must not panic.
    assert_eq!(at(-10), "-");
}

/// What stat'ing says of a file.
fn stat(path: &str, size: u64, secs: i64) -> (String, FileMeta) {
    (p(path), FileMeta { size, modified: Some(WallTime { secs, nanos: 0 }) })
}

#[test]
fn group_bytes_sums_every_member() {
    let g = group_files("/td", &vec![p("/td/x.JPG"), p("/td/x.ARW")]);

    let mut store = MetaStore::new();
    assert_eq!(g[0].member_paths(), vec![p("/td/x.ARW"), p("/td/x.JPG")]);
    store.publish(&vec![stat("/td/x.JPG", 1000, 70), stat("/td/x.ARW", 2500, 60)]);

    assert_eq!(store.group_bytes(&g[0]), Some(3500));
    assert!(store.group_modified(&g[0]).is_some());
    // The earliest file counts as the capture.
    assert_eq!(store.group_modified(&g[0]), Some(WallTime { secs: 60, nanos: 0 }));
    assert!(store.bytes_fit(&g[0]));
}

#[test]
fn group_bytes_are_unknown_until_every_file_is_known() {
    let g = group_files("/td", &vec![p("/td/x.JPG"), p("/td/x.ARW")]);
    let mut store = MetaStore::new();
    store.publish(&vec![stat("/td/x.JPG", 1000, 70)]);
    assert_eq!(store.group_bytes(&g[0]), None);
    store.publish(&vec![stat("/td/x.ARW", 2500, 60)]);
    assert_eq!(store.group_bytes(&g[0]), Some(3500));
}

/// Scanning must not touch the filesystem beyond listing directories, or startup is
/// proportional to the number of files rather than to the number of directories.
#[test]
fn grouping_reports_nothing_until_the_meta_pass_runs() {
    let g = group_files("/td", &vec![p("/td/x.JPG")]);

    let mut store = MetaStore::new();
    assert!(store.is_empty(), "grouping must not have stat'ed anything");
    assert_eq!(store.group_bytes(&g[0]), None, "unknown, not a wrong zero");
    assert_eq!(store.group_modified(&g[0]), None);

    store.publish(&vec![stat("/td/x.JPG", 1000, 0)]);
    assert_eq!(store.group_bytes(&g[0]), Some(1000));
    assert_eq!(store.len(), 1);
}

#[test]
fn missing_file_is_stat_ed_as_zero_not_a_panic() {
    // Stat fails for a path that vanished; must not panic or poison the group.
    let g = group_files("/nonexistent", &vec![p("/nonexistent/z.JPG")]);
    let mut store = MetaStore::new();
    store.publish(&vec![(p("/nonexistent/z.JPG"), FileMeta::default())]);

    assert_eq!(store.group_bytes(&g[0]), Some(0));
    assert!(store.group_modified(&g[0]).is_none());
    assert_eq!(format_size(0), "-");
}

#[test]
fn sizes_that_do_not_fit_are_noticed() {
    let g = group_files("/td", &vec![p("/td/x.JPG"), p("/td/x.ARW")]);
    let mut store = MetaStore::new();
    store.publish(&vec![stat("/td/x.JPG", u64::MAX, 0), stat("/td/x.ARW", 1, 0)]);
    assert!(!store.bytes_fit(&g[0]));
}

#[test]
fn display_preference_is_jpg_then_jpeg_then_arw() {
    let groups = group_files("/d", &vec![p("/d/x.arw"), p("/d/x.jpeg"), p("/d/x.jpg")]);
    assert_eq!(groups[0].display_path().unwrap(), "/d/x.jpg");
}

#[test]
fn sizes_round_as_the_nearest_double_prints() {
    assert_eq!(format_size(1), "0 kB");
    assert_eq!(format_size(500), "0 kB");
    assert_eq!(format_size(501), "1 kB");
    assert_eq!(format_size(1_500), "2 kB");
    assert_eq!(format_size(2_500), "2 kB");
    assert_eq!(format_size(999_999), "1000 kB");
    assert_eq!(format_size(1_000_000), "1.0 MB");
    assert_eq!(format_size(999_999_999), "1000.0 MB");
    assert_eq!(format_size(1_005_000_000), "1.00 GB");
    assert_eq!(format_size(u64::MAX), "18446744073.71 GB");
    for n in [7u64, 1_234, 45_678, 1_250_000, 98_765_432, 123_456_789_012, 1 << 60] {
        let d = n as f64;
        let expected = if d >= 1e9 {
            format!("{:.2} GB", d / 1e9)
        } else if d >= 1e6 {
            format!("{:.1} MB", d / 1e6)
        } else {
            format!("{:.0} kB", d / 1e3)
        };
        assert_eq!(format_size(n), expected);
    }
}

#[test]
fn megapixels_round_as_the_nearest_double_prints() {
    assert_eq!(format_megapixels(6192, 4128), "25.6");
    assert_eq!(format_megapixels(17, 9), "0.0");
    assert_eq!(format_megapixels(0, 5), "0.0");
    for (w, h) in [(1000, 1050), (500, 500), (1_234, 4_321), (u32::MAX, u32::MAX)] {
        assert_eq!(
            format_megapixels(w, h),
            format!("{:.1}", f64::from(w) * f64::from(h) / 1e6)
        );
    }
}

#[test]
fn paths_are_compared_by_component() {
    let mut store = MetaStore::new();
    store.publish(&vec![stat("/td//x.JPG", 5, 0)]);
    assert_eq!(store.get("/td/./x.JPG").map(|m| m.size), Some(5));
    assert_eq!(store.get("/td/y.JPG"), None);
}

/// A tree of files by directory.
fn listing(dir: &str, names: &[&str]) -> Listing {
    Listing {
        dir: p(dir),
        files: names.iter().map(|n| format!("{dir}/{n}")).collect(),
    }
}

#[test]
fn scanned_directories_are_sorted_and_never_empty() {
    let dirs = scan_listings(vec![
        listing("/r/b", &["2.JPG", "1.JPG"]),
        listing("/r", &["notes.txt"]),
        listing("/r/a", &["x.ARW", "x.ARW.pp3"]),
    ]);
    let names: Vec<&str> = dirs.iter().map(|d| d.path.as_str()).collect();
    assert_eq!(names, vec!["/r/a", "/r/b"]);
    let stems: Vec<String> = flatten(&dirs).into_iter().map(|g| g.stem).collect();
    assert_eq!(stems, vec!["x", "1", "2"]);
}

#[test]
fn a_walk_reads_directories_depth_first_in_path_order() {
    let mut w = Walk::new("/r");
    let mut order = Vec::new();
    while let Some(dir) = w.next() {
        order.push(dir.clone());
        let subdirs = if dir == "/r" { vec![p("/r/b"), p("/r/a")] } else { Vec::new() };
        let file = format!("{dir}/0.JPG");
        w.listed(dir, vec![file], &subdirs);
    }
    assert_eq!(order, vec!["/r", "/r/a", "/r/b"]);
    assert_eq!(w.finish().len(), 3);
}

#[test]
fn roles_go_by_extension() {
    assert_eq!(role_for(&p("jpg")), Role::Displayable);
    assert_eq!(role_for(&p("arw")), Role::Displayable);
    assert_eq!(role_for(&p("pp3")), Role::Sidecar);
}

#[test]
fn a_scan_is_reported_by_shape() {
    let groups = group_files(
        "/d",
        &vec![p("/d/a.JPG"), p("/d/a.ARW"), p("/d/b.ARW"), p("/d/c.ARW"), p("/d/c.ARW.pp3")],
    );
    let s = summarise(&groups);
    assert_eq!(
        s.shapes,
        vec![(p("arw"), 1), (p("arw+jpg"), 1), (p("arw+pp3"), 1)]
    );
    assert_eq!((s.files, s.raw_only, s.hidden), (5, 2, 0));
    assert_eq!(shape(&groups[0]), "arw+jpg");
}

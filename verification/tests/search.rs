use cull::search::{Item, Search};

fn file(path: &str) -> Item {
    Item { path: path.to_string(), is_dir: false }
}

fn dir(path: &str) -> Item {
    Item { path: path.to_string(), is_dir: true }
}

#[test]
fn a_search_goes_by_extension_in_either_case() {
    let mut s = Search::new("/d", "JPG", 10);
    assert_eq!(s.next().as_deref(), Some("/d"));
    s.listed(&vec![file("/d/b.jpg"), file("/d/a.JPG"), file("/d/a.ARW"), file("/d/.jpg")]);
    assert_eq!(s.next(), None);
    // Nothing was cut off, so the files come in path order.
    assert_eq!(s.finish(), ["/d/a.JPG", "/d/b.jpg"]);
}

#[test]
fn a_search_ends_with_the_file_that_fills_it() {
    let mut s = Search::new("/d", "jpg", 2);
    s.next();
    s.listed(&vec![file("/d/z.jpg"), dir("/d/more"), file("/d/b.jpg"), file("/d/a.jpg")]);
    assert_eq!(s.next(), None, "the subdirectory is not read any more");
    assert_eq!(s.finish(), ["/d/z.jpg", "/d/b.jpg"]);
}

#[test]
fn a_search_reads_subdirectories_last_path_first() {
    let mut s = Search::new("/d", "jpg", 9);
    s.next();
    s.listed(&vec![dir("/d/b"), dir("/d/a"), file("/d/x.txt")]);
    assert_eq!(s.next().as_deref(), Some("/d/b"));
    s.listed(&vec![dir("/d/b/c")]);
    assert_eq!(s.next().as_deref(), Some("/d/b/c"));
    s.listed(&vec![file("/d/b/c/1.jpg")]);
    assert_eq!(s.next().as_deref(), Some("/d/a"));
    // A directory that cannot be read is passed over.
    assert_eq!(s.next(), None);
    assert_eq!(s.finish(), ["/d/b/c/1.jpg"]);
}

#[test]
fn a_search_for_nothing_still_takes_one() {
    let mut s = Search::new("/d", "jpg", 0);
    s.next();
    s.listed(&vec![file("/d/a.jpg"), file("/d/b.jpg")]);
    assert_eq!(s.finish(), ["/d/a.jpg"]);
}

use std::cell::RefCell;
use std::collections::BTreeMap;

use cull::trash::{
    delete_and_record, delete_group, newest_entry, undo, Bin, Deletion, History, Trashed,
};

/// A disk with a trash directory, so restore is real.
struct FakeBin {
    files: RefCell<BTreeMap<String, Vec<u8>>>,
    store: String,
    /// trashed path -> where it now lives
    moved: RefCell<BTreeMap<String, String>>,
    /// Paths whose deletion should fail, to exercise the error path.
    refuse: Vec<String>,
    /// What was sent and what was to be restored, in order.
    asked: Vec<(&'static str, String)>,
}

impl FakeBin {
    fn new() -> Self {
        Self {
            files: RefCell::new(BTreeMap::new()),
            store: "/td/trash".to_string(),
            moved: RefCell::new(BTreeMap::new()),
            refuse: Vec::new(),
            asked: Vec::new(),
        }
    }

    fn has(&self, path: &str) -> bool {
        self.files.borrow().contains_key(path)
    }

    fn rename(&self, from: &str, to: &str) -> Result<(), String> {
        let mut files = self.files.borrow_mut();
        let bytes = files.remove(from).ok_or("No such file or directory")?;
        files.insert(to.to_string(), bytes);
        Ok(())
    }

    /// Create a group of files, returning their paths.
    fn make_group(&self, stem: &str, exts: &[&str]) -> Vec<String> {
        exts.iter()
            .map(|e| {
                let p = format!("/td/photos/{stem}.{e}");
                self.files.borrow_mut().insert(p.clone(), b"x".to_vec());
                p
            })
            .collect()
    }
}

impl Bin for FakeBin {
    fn is_present(&mut self, path: &str) -> bool {
        self.has(path)
    }

    fn send(&mut self, path: &str) -> Result<(), String> {
        self.asked.push(("send", path.to_string()));
        if self.refuse.iter().any(|p| p == path) {
            return Err("permission denied".to_string());
        }
        let name = path.rsplit('/').next().ok_or("no file name")?;
        let dest = format!("{}/{name}", self.store);
        self.rename(path, &dest)?;
        self.moved.borrow_mut().insert(path.to_string(), dest);
        Ok(())
    }

    fn restore(&mut self, path: &str) -> Result<(), String> {
        self.asked.push(("restore", path.to_string()));
        let dest = self
            .moved
            .borrow_mut()
            .remove(path)
            .ok_or_else(|| format!("{path} not in trash"))?;
        self.rename(&dest, path)
    }
}

fn refs(paths: &[String]) -> Vec<&str> {
    paths.iter().map(|p| p.as_str()).collect()
}

#[test]
fn deletes_every_file_in_the_group() {
    let mut bin = FakeBin::new();
    // The real shape: RAW, JPEG and both RawTherapee sidecars.
    let paths = bin.make_group("A6701113", &["ARW", "JPG", "ARW.pp3", "JPG.pp3"]);

    let d = delete_group(&mut bin, "A6701113", &refs(&paths));

    assert!(d.is_clean(), "{d:?}");
    assert_eq!(d.trashed.len(), 4, "all four files must go");
    assert!(d.already_absent.is_empty());
    for p in &paths {
        assert!(!bin.has(p), "{p} should be gone");
    }
}

#[test]
fn missing_files_count_as_success() {
    // The user deleted it elsewhere while we were running.
    let mut bin = FakeBin::new();
    let paths = bin.make_group("A001", &["JPG", "ARW"]);
    bin.files.borrow_mut().remove(&paths[0]);

    let d = delete_group(&mut bin, "A001", &refs(&paths));

    assert!(d.is_clean(), "an already-absent file is not a failure");
    assert_eq!(d.already_absent.len(), 1);
    assert_eq!(d.trashed.len(), 1);
}

#[test]
fn one_failure_does_not_abort_the_rest() {
    let mut bin = FakeBin::new();
    let paths = bin.make_group("A002", &["JPG", "ARW", "xmp"]);
    bin.refuse.push(paths[1].clone());

    let d = delete_group(&mut bin, "A002", &refs(&paths));

    assert!(!d.is_clean());
    assert_eq!(d.failed.len(), 1);
    assert_eq!(d.failed[0].1, "permission denied");
    assert_eq!(d.trashed.len(), 2, "the other two must still be trashed");
    assert!(bin.has(&paths[1]), "the refused file stays put");
}

#[test]
fn undo_restores_the_whole_group() {
    let mut bin = FakeBin::new();
    let paths = bin.make_group("A003", &["JPG", "ARW", "ARW.pp3"]);
    let mut hist = History::new(0);

    delete_and_record(&mut bin, &mut hist, "A003", &refs(&paths));
    assert_eq!(hist.len(), 1);
    for p in &paths {
        assert!(!bin.has(p));
    }

    let r = undo(&mut bin, &mut hist).expect("something to undo");
    assert_eq!(r.restored.len(), 3);
    assert!(r.failed.is_empty(), "{r:?}");
    for p in &paths {
        assert!(bin.has(p), "{p} should be back");
    }
    assert!(hist.is_empty());
}

#[test]
fn undo_unwinds_in_reverse_order() {
    let mut bin = FakeBin::new();
    let a = bin.make_group("A", &["JPG"]);
    let b = bin.make_group("B", &["JPG"]);
    let mut hist = History::new(0);

    delete_and_record(&mut bin, &mut hist, "A", &refs(&a));
    delete_and_record(&mut bin, &mut hist, "B", &refs(&b));

    // Most recent first.
    assert_eq!(undo(&mut bin, &mut hist).unwrap().stem, "B");
    assert!(bin.has(&b[0]));
    assert!(!bin.has(&a[0]));

    assert_eq!(undo(&mut bin, &mut hist).unwrap().stem, "A");
    assert!(bin.has(&a[0]));
}

#[test]
fn undo_on_empty_history_is_none() {
    let mut bin = FakeBin::new();
    let mut hist = History::new(0);
    assert!(undo(&mut bin, &mut hist).is_none());
}

#[test]
fn nothing_trashed_means_nothing_to_undo() {
    // Deleting a group whose files are all already gone must not create a
    // history entry that would "restore" nothing.
    let mut bin = FakeBin::new();
    let mut hist = History::new(0);

    let d = delete_and_record(&mut bin, &mut hist, "gone", &vec!["/td/photos/gone.JPG"]);

    assert!(d.is_clean());
    assert_eq!(d.already_absent.len(), 1);
    assert!(hist.is_empty(), "no undoable work was done");
}

#[test]
fn history_respects_its_limit() {
    let mut bin = FakeBin::new();
    let mut hist = History::new(3);

    for i in 0..6 {
        let stem = format!("G{i}");
        let p = bin.make_group(&stem, &["JPG"]);
        delete_and_record(&mut bin, &mut hist, &stem, &refs(&p));
    }

    assert_eq!(hist.len(), 3, "oldest entries are dropped");
    // The newest is retained.
    assert_eq!(hist.last().unwrap().stem, "G5");
}

#[test]
fn failed_restore_is_reported_and_not_retried() {
    let mut bin = FakeBin::new();
    let paths = bin.make_group("A004", &["JPG"]);
    let mut hist = History::new(0);
    delete_and_record(&mut bin, &mut hist, "A004", &refs(&paths));

    // Remove the file from the fake trash so restore cannot succeed.
    bin.files.borrow_mut().remove("/td/trash/A004.JPG");

    let r = undo(&mut bin, &mut hist).unwrap();
    assert_eq!(r.failed.len(), 1);
    assert!(r.restored.is_empty());
    assert_eq!(r.summary(), "restored A004 (0 files), 1 FAILED");
    // Consumed regardless, so the user is not stuck retrying.
    assert!(hist.is_empty());
}

#[test]
fn summaries_are_informative() {
    let d = Deletion {
        stem: "A6701113".into(),
        trashed: vec!["a".to_string(), "b".to_string()],
        already_absent: vec!["c".to_string()],
        failed: vec![("d".to_string(), "nope".into())],
    };
    let s = d.summary();
    assert!(s.contains("A6701113") && s.contains("2 files"));
    assert!(s.contains("already gone") && s.contains("FAILED"));
}

#[test]
fn the_newest_trash_entry_is_restored() {
    let e = |original: &str, deleted| Trashed { original: original.to_string(), deleted };
    let entries = vec![e("/p/a.JPG", 10), e("/p/b.JPG", 99), e("/p/a.JPG", 20), e("/p//a.JPG", 15)];
    assert_eq!(newest_entry(&entries, "/p/a.JPG"), Some(2));
    assert_eq!(newest_entry(&entries, "/p/c.JPG"), None);
}

#[test]
fn each_present_file_is_sent_once_in_order() {
    let mut bin = FakeBin::new();
    let paths = bin.make_group("A", &["ARW", "JPG", "pp3"]);
    bin.refuse.push(paths[0].clone());
    bin.files.borrow_mut().remove(&paths[1]);
    let mut hist = History::new(0);
    let d = delete_and_record(&mut bin, &mut hist, "A", &refs(&paths));
    let sent = |i: usize| ("send", paths[i].clone());
    assert_eq!(bin.asked, vec![sent(0), sent(2)], "the absent one is never sent");
    assert_eq!(d.trashed, vec![paths[2].clone()]);
    assert_eq!(d.already_absent, vec![paths[1].clone()]);
    assert_eq!(d.failed, vec![(paths[0].clone(), "permission denied".to_string())]);
    // Undo restores what was trashed, once, and sends nothing.
    bin.asked.clear();
    undo(&mut bin, &mut hist).unwrap();
    assert_eq!(bin.asked, vec![("restore", paths[2].clone())]);
    bin.asked.clear();
    assert!(undo(&mut bin, &mut hist).is_none());
    assert!(bin.asked.is_empty());
}

/// A trash that fails and yet takes the file away: something else deleted it meanwhile.
struct Racing {
    there: bool,
}

impl Bin for Racing {
    fn is_present(&mut self, _path: &str) -> bool {
        self.there
    }

    fn send(&mut self, _path: &str) -> Result<(), String> {
        self.there = false;
        Err("gone".to_string())
    }

    fn restore(&mut self, _path: &str) -> Result<(), String> {
        Err("gone".to_string())
    }
}

#[test]
fn a_file_that_vanishes_meanwhile_is_absent() {
    let d = delete_group(&mut Racing { there: true }, "A", &vec!["/a.JPG"]);
    assert!(d.is_clean() && d.trashed.is_empty());
    assert_eq!(d.already_absent, vec!["/a.JPG".to_string()]);
}

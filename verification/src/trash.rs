//! Group deletion with undo.
//!
//! Deletion always moves files to the trash, never unlinks them. Culling is fast and
//! misfires are certain, so recoverability is the point rather than a nicety.
//!
//! The tree changes underneath a running viewer: a file that has already disappeared counts
//! as a **success**, not a failure. The user's intent was "this should not be here", and it
//! is not there.
use vstd::prelude::*;
use crate::path;
use crate::scan;
use crate::text;

verus! {

/// Outcome of trashing one group.
#[derive(Debug, PartialEq, Eq)]
pub struct Deletion {
    /// Stem of the group that was deleted, for display in the undo log.
    pub stem: String,
    /// Files actually moved to the trash, in the order they were moved.
    pub trashed: Vec<String>,
    /// Files that were already gone. Not an error.
    pub already_absent: Vec<String>,
    /// Files that could not be trashed, with the reason.
    pub failed: Vec<(String, String)>,
}

/// The mathematical content of a [`Deletion`].
#[verifier::ext_equal]
pub struct DeletionFacts {
    pub stem: Seq<char>,
    pub trashed: Seq<Seq<char>>,
    pub already_absent: Seq<Seq<char>>,
    pub failed: Seq<(Seq<char>, Seq<char>)>,
}

/// The content of each pair of strings of a list.
pub open spec fn pairs(v: Seq<(String, String)>) -> Seq<(Seq<char>, Seq<char>)> {
    Seq::new(v.len(), |i: int| (v[i].0@, v[i].1@))
}

impl View for Deletion {
    type V = DeletionFacts;

    open spec fn view(&self) -> DeletionFacts {
        DeletionFacts {
            stem: self.stem@,
            trashed: scan::strings(self.trashed@),
            already_absent: scan::strings(self.already_absent@),
            failed: pairs(self.failed@),
        }
    }
}

fn copy_strings(v: &Vec<String>) -> (r: Vec<String>)
    ensures
        scan::strings(r@) == scan::strings(v@),
{
    let mut r: Vec<String> = Vec::new();
    for i in 0..v.len()
        invariant
            r@.len() == i,
            forall|k: int| 0 <= k < i ==> (#[trigger] r@[k])@ == v@[k]@,
    {
        r.push(v[i].clone());
    }
    assert(scan::strings(r@) == scan::strings(v@));
    r
}

fn copy_pairs(v: &Vec<(String, String)>) -> (r: Vec<(String, String)>)
    ensures
        pairs(r@) == pairs(v@),
{
    let mut r: Vec<(String, String)> = Vec::new();
    for i in 0..v.len()
        invariant
            r@.len() == i,
            forall|k: int|
                0 <= k < i ==> (#[trigger] r@[k]).0@ == v@[k].0@ && r@[k].1@ == v@[k].1@,
    {
        r.push((v[i].0.clone(), v[i].1.clone()));
    }
    assert(pairs(r@) == pairs(v@));
    r
}

impl Clone for Deletion {
    fn clone(&self) -> (d: Self)
        ensures
            d@ == self@,
    {
        Deletion {
            stem: self.stem.clone(),
            trashed: copy_strings(&self.trashed),
            already_absent: copy_strings(&self.already_absent),
            failed: copy_pairs(&self.failed),
        }
    }
}

/// "`verb` `stem` (`n` files)", as every summary begins.
pub open spec fn summary_head(verb: Seq<char>, stem: Seq<char>, n: nat) -> Seq<char> {
    verb + seq![' '] + stem + " ("@ + text::decimal(n) + " files)"@
}

/// ", `n` `what`", where there is anything to count.
pub open spec fn summary_count(n: nat, what: Seq<char>) -> Seq<char> {
    if n > 0 {
        ", "@ + text::decimal(n) + what
    } else {
        Seq::empty()
    }
}

fn push_head(s: &mut String, verb: &str, stem: &str, n: usize)
    ensures
        final(s)@ == old(s)@ + summary_head(verb@, stem@, n as nat),
{
    s.append(verb);
    s.push(' ');
    s.append(stem);
    s.append(" (");
    text::push_decimal(s, n as u64);
    s.append(" files)");
    assert(s@ == old(s)@ + summary_head(verb@, stem@, n as nat));
}

fn push_count(s: &mut String, n: usize, what: &str)
    ensures
        final(s)@ == old(s)@ + summary_count(n as nat, what@),
{
    if n > 0 {
        s.append(", ");
        text::push_decimal(s, n as u64);
        s.append(what);
    }
    assert(s@ == old(s)@ + summary_count(n as nat, what@));
}

impl DeletionFacts {
    pub open spec fn summary(self) -> Seq<char> {
        summary_head("trashed"@, self.stem, self.trashed.len()) + summary_count(
            self.already_absent.len(),
            " already gone"@,
        ) + summary_count(self.failed.len(), " FAILED"@)
    }
}

/// What became of one file.
#[derive(Debug)]
pub enum Fate {
    Trashed,
    Absent,
    Failed(String),
}

/// The mathematical content of a [`Fate`].
pub enum FateFacts {
    Trashed,
    Absent,
    Failed(Seq<char>),
}

impl View for Fate {
    type V = FateFacts;

    open spec fn view(&self) -> FateFacts {
        match self {
            Fate::Trashed => FateFacts::Trashed,
            Fate::Absent => FateFacts::Absent,
            Fate::Failed(e) => FateFacts::Failed(e@),
        }
    }
}

impl DeletionFacts {
    /// The deletion with one more file accounted for.
    pub open spec fn noted(self, p: Seq<char>, fate: FateFacts) -> DeletionFacts {
        match fate {
            FateFacts::Trashed => DeletionFacts { trashed: self.trashed.push(p), ..self },
            FateFacts::Absent => DeletionFacts {
                already_absent: self.already_absent.push(p),
                ..self
            },
            FateFacts::Failed(e) => DeletionFacts { failed: self.failed.push((p, e)), ..self },
        }
    }
}

/// The deletion of the given files under the given fates.
pub open spec fn tally(
    stem: Seq<char>,
    paths: Seq<Seq<char>>,
    fates: Seq<FateFacts>,
) -> DeletionFacts
    decreases paths.len(),
{
    if paths.len() == 0 {
        DeletionFacts {
            stem,
            trashed: Seq::empty(),
            already_absent: Seq::empty(),
            failed: Seq::empty(),
        }
    } else {
        tally(stem, paths.drop_last(), fates.drop_last()).noted(paths.last(), fates.last())
    }
}

impl Deletion {
    /// Nothing deleted yet.
    pub fn new(stem: &str) -> (d: Self)
        ensures
            d@ == tally(stem@, Seq::empty(), Seq::empty()),
    {
        let d = Deletion {
            stem: text::copy(stem),
            trashed: Vec::new(),
            already_absent: Vec::new(),
            failed: Vec::new(),
        };
        assert(d@ == tally(stem@, Seq::empty(), Seq::empty()));
        d
    }

    /// Account for one more file.
    pub fn note(&mut self, path: String, fate: Fate)
        ensures
            final(self)@ == old(self)@.noted(path@, fate@),
    {
        let ghost before = *self;
        let ghost (p, f) = (path@, fate@);
        match fate {
            Fate::Trashed => self.trashed.push(path),
            Fate::Absent => self.already_absent.push(path),
            Fate::Failed(e) => self.failed.push((path, e)),
        }
        proof {
            if f is Trashed {
                assert(scan::strings(self.trashed@) == scan::strings(before.trashed@).push(p));
            } else if f is Absent {
                assert(scan::strings(self.already_absent@) == scan::strings(
                    before.already_absent@,
                ).push(p));
            } else {
                assert(pairs(self.failed@) == pairs(before.failed@).push((p, f->Failed_0)));
            }
            assert(self@ == before@.noted(p, f));
        }
    }

    /// True when nothing was left behind unintentionally.
    pub fn is_clean(&self) -> (r: bool)
        ensures
            r == (self@.failed.len() == 0),
    {
        self.failed.len() == 0
    }

    /// Human-readable one-liner for the status bar.
    pub fn summary(&self) -> (s: String)
        ensures
            s@ == self@.summary(),
    {
        let mut s = String::new();
        push_head(&mut s, "trashed", self.stem.as_str(), self.trashed.len());
        push_count(&mut s, self.already_absent.len(), " already gone");
        push_count(&mut s, self.failed.len(), " FAILED");
        assert(s@ == self@.summary());
        s
    }
}

/// One call that was made on a [`Bin`], with its answer.
pub enum Call {
    /// Whether a file is there, and the answer.
    Looked(Seq<char>, bool),
    /// A file sent to the trash, and what went wrong.
    Sent(Seq<char>, Option<Seq<char>>),
    /// A file restored, and what went wrong.
    Restored(Seq<char>, Option<Seq<char>>),
}

/// What a call to the trash said went wrong.
pub open spec fn error_of(said: Result<(), String>) -> Option<Seq<char>> {
    match said {
        Ok(_) => None,
        Err(e) => Some(e@),
    }
}

/// Moves files to the trash. Abstracted so deletion logic is testable without
/// depending on a working desktop trash implementation.
pub trait Bin {
    /// Every call made so far, the latest last. Only proofs speak of it, so an implementation that
    /// is not verified need not define it. One that is verified must: of the default nothing is
    /// known, and the contracts below could not be met with it.
    closed spec fn log(&self) -> Seq<Call> {
        arbitrary()
    }

    /// Whether the file is there.
    fn is_present(&mut self, path: &str) -> (there: bool)
        ensures
            final(self).log() == old(self).log().push(Call::Looked(path@, there)),
    ;

    fn send(&mut self, path: &str) -> (said: Result<(), String>)
        ensures
            final(self).log() == old(self).log().push(Call::Sent(path@, error_of(said))),
    ;

    /// Restore a previously trashed path. Best-effort.
    fn restore(&mut self, path: &str) -> (said: Result<(), String>)
        ensures
            final(self).log() == old(self).log().push(Call::Restored(path@, error_of(said))),
    ;
}

/// The calls by which a log grew.
pub open spec fn since(before: Seq<Call>, after: Seq<Call>) -> Seq<Call> {
    after.skip(before.len() as int)
}

/// The paths of the files that were sent to the trash, in order.
pub open spec fn sent_paths(calls: Seq<Call>) -> Seq<Seq<char>>
    decreases calls.len(),
{
    if calls.len() == 0 {
        Seq::empty()
    } else {
        match calls.last() {
            Call::Sent(p, _) => sent_paths(calls.drop_last()).push(p),
            _ => sent_paths(calls.drop_last()),
        }
    }
}

/// The paths of the files that were restored or were to be, in order.
pub open spec fn restored_paths(calls: Seq<Call>) -> Seq<Seq<char>>
    decreases calls.len(),
{
    if calls.len() == 0 {
        Seq::empty()
    } else {
        match calls.last() {
            Call::Restored(p, _) => restored_paths(calls.drop_last()).push(p),
            _ => restored_paths(calls.drop_last()),
        }
    }
}

/// How the attempt to trash one file went.
pub enum Attempt {
    /// It was not there.
    Missing,
    /// The trash took it.
    Taken,
    /// The trash refused it, with an error; and whether it was still there then.
    Refused(Seq<char>, bool),
}

impl Attempt {
    /// The calls that were made for the file at `p`.
    pub open spec fn calls(self, p: Seq<char>) -> Seq<Call> {
        match self {
            Attempt::Missing => seq![Call::Looked(p, false)],
            Attempt::Taken => seq![Call::Looked(p, true), Call::Sent(p, None)],
            Attempt::Refused(e, remains) => seq![
                Call::Looked(p, true),
                Call::Sent(p, Some(e)),
                Call::Looked(p, remains),
            ],
        }
    }

    /// What became of the file: one that is not there, before or after, is absent.
    pub open spec fn fate(self) -> FateFacts {
        match self {
            Attempt::Missing => FateFacts::Absent,
            Attempt::Taken => FateFacts::Trashed,
            Attempt::Refused(e, remains) => if remains {
                FateFacts::Failed(e)
            } else {
                FateFacts::Absent
            },
        }
    }
}

/// The fates that the attempts came to.
pub open spec fn fates(attempts: Seq<Attempt>) -> Seq<FateFacts> {
    Seq::new(attempts.len(), |i: int| attempts[i].fate())
}

/// The calls that the attempts on the files at `paths` took, one file after the other.
pub open spec fn trace(paths: Seq<Seq<char>>, attempts: Seq<Attempt>) -> Seq<Call>
    decreases paths.len(),
{
    if paths.len() == 0 {
        Seq::empty()
    } else {
        trace(paths.drop_last(), attempts.drop_last()) + attempts.last().calls(paths.last())
    }
}

/// Those of the files that were there when they were reached.
pub open spec fn present(paths: Seq<Seq<char>>, attempts: Seq<Attempt>) -> Seq<Seq<char>>
    decreases paths.len(),
{
    if paths.len() == 0 {
        Seq::empty()
    } else if attempts.last() is Missing {
        present(paths.drop_last(), attempts.drop_last())
    } else {
        present(paths.drop_last(), attempts.drop_last()).push(paths.last())
    }
}

/// What became of a file: whether it was there, what the trash said when it was sent there,
/// and whether it was still there when that failed.
pub fn fate_of(existed: bool, sent: Result<(), String>, remains: bool) -> (f: Fate)
    ensures
        !existed ==> f@ == FateFacts::Absent,
        existed ==> f@ == (match sent {
            Ok(_) => FateFacts::Trashed,
            Err(e) => if remains {
                FateFacts::Failed(e@)
            } else {
                FateFacts::Absent
            },
        }),
{
    if !existed {
        return Fate::Absent;
    }
    match sent {
        Ok(_) => Fate::Trashed,
        Err(e) => if remains {
            Fate::Failed(e)
        } else {
            Fate::Absent
        },
    }
}

/// The attempt on the file at `p` took the calls `calls` and came to `f`.
pub open spec fn attempted(p: Seq<char>, calls: Seq<Call>, f: FateFacts) -> bool {
    exists|a: Attempt| calls == #[trigger] a.calls(p) && f == a.fate()
}

/// Move one file to the trash.
fn trash_file<B: Bin>(bin: &mut B, p: &str) -> (f: Fate)
    ensures
        final(bin).log() == old(bin).log() + since(old(bin).log(), final(bin).log()),
        attempted(p@, since(old(bin).log(), final(bin).log()), f@),
{
    let ghost before = bin.log();
    // Already gone is the desired end state, so treat it as success.
    if !bin.is_present(p) {
        assert(since(before, bin.log()) == Attempt::Missing.calls(p@));
        return fate_of(false, Ok(()), false);
    }
    let sent = bin.send(p);
    match sent {
        Ok(_) => {
            assert(since(before, bin.log()) == Attempt::Taken.calls(p@));
            fate_of(true, Ok(()), false)
        },
        // Racing with an external delete is also fine.
        Err(e) => {
            let remains = bin.is_present(p);
            assert(since(before, bin.log()) == Attempt::Refused(e@, remains).calls(p@));
            fate_of(true, Err(e), remains)
        },
    }
}

/// Deleting the files at `paths` took exactly the calls `calls`, and came to `d`: one file after
/// the other was looked for and sent to the trash if it was there, whatever became of the
/// ones before it.
pub open spec fn deletes(
    stem: Seq<char>,
    paths: Seq<Seq<char>>,
    calls: Seq<Call>,
    d: DeletionFacts,
) -> bool {
    exists|attempts: Seq<Attempt>|
        {
            &&& attempts.len() == paths.len()
            &&& calls == #[trigger] trace(paths, attempts)
            &&& d == tally(stem, paths, fates(attempts))
        }
}

/// The content of each string slice of a list.
pub open spec fn texts(v: Seq<&str>) -> Seq<Seq<char>> {
    Seq::new(v.len(), |i: int| v[i]@)
}

/// Move every file of a group to the trash.
///
/// Files are attempted independently: one failure does not abort the rest, because a
/// half-deleted group is worse than a fully-attempted one.
pub fn delete_group<B: Bin>(bin: &mut B, stem: &str, paths: &Vec<&str>) -> (d: Deletion)
    ensures
        final(bin).log() == old(bin).log() + since(old(bin).log(), final(bin).log()),
        deletes(stem@, texts(paths@), since(old(bin).log(), final(bin).log()), d@),
{
    let ghost before = bin.log();
    let mut d = Deletion::new(stem);
    let ghost mut attempts: Seq<Attempt> = Seq::empty();
    assert(texts(paths@).take(0) == Seq::<Seq<char>>::empty());
    assert(fates(attempts) == Seq::<FateFacts>::empty());
    assert(before == before + trace(texts(paths@).take(0), attempts));
    for i in 0..paths.len()
        invariant
            attempts.len() == i,
            bin.log() == before + trace(texts(paths@).take(i as int), attempts),
            d@ == tally(stem@, texts(paths@).take(i as int), fates(attempts)),
    {
        let ghost reached = bin.log();
        let p = paths[i];
        let fate = trash_file(bin, p);
        proof {
            let all = texts(paths@);
            let made = since(reached, bin.log());
            let a = choose|a: Attempt| made == #[trigger] a.calls(p@) && fate@ == a.fate();
            let more = attempts.push(a);
            assert(all[i as int] == p@);
            assert(all.take(i + 1).drop_last() == all.take(i as int));
            assert(all.take(i + 1).last() == p@);
            assert(more.drop_last() == attempts);
            assert(fates(more).drop_last() == fates(attempts));
            assert(fates(more).last() == fate@);
            assert(bin.log() == before + trace(all.take(i + 1), more));
            attempts = more;
        }
        d.note(text::copy(p), fate);
    }
    proof {
        assert(texts(paths@).take(paths@.len() as int) == texts(paths@));
        assert(since(before, bin.log()) == trace(texts(paths@), attempts));
    }
    d
}

/// Deletion history, newest last.
pub struct History {
    entries: Vec<Deletion>,
    limit: usize,
}

/// The content of each deletion of a list.
pub open spec fn deletion_facts(v: Seq<Deletion>) -> Seq<DeletionFacts> {
    Seq::new(v.len(), |i: int| v[i]@)
}

impl View for History {
    type V = Seq<DeletionFacts>;

    closed spec fn view(&self) -> Seq<DeletionFacts> {
        deletion_facts(self.entries@)
    }
}

/// `entries` with `d` as the newest; the oldest goes when there are more than `limit`, unless
/// that is 0.
pub open spec fn recorded(
    entries: Seq<DeletionFacts>,
    limit: usize,
    d: DeletionFacts,
) -> Seq<DeletionFacts> {
    let all = entries.push(d);
    if limit > 0 && all.len() > limit {
        all.drop_first()
    } else {
        all
    }
}

impl History {
    /// The most deletions that are kept; 0 for all.
    pub closed spec fn spec_limit(&self) -> usize {
        self.limit
    }

    /// No more is kept than the limit allows.
    pub open spec fn wf(&self) -> bool {
        self.spec_limit() > 0 ==> self@.len() <= self.spec_limit()
    }

    /// `limit` caps retained undo steps; 0 means unlimited.
    pub fn new(limit: usize) -> (h: Self)
        ensures
            h@ == Seq::<DeletionFacts>::empty(),
            h.spec_limit() == limit,
            h.wf(),
    {
        let h = History { entries: Vec::new(), limit };
        assert(h@ == Seq::<DeletionFacts>::empty());
        h
    }

    pub fn len(&self) -> (n: usize)
        ensures
            n == self@.len(),
    {
        self.entries.len()
    }

    pub fn is_empty(&self) -> (r: bool)
        ensures
            r == (self@.len() == 0),
    {
        self.entries.len() == 0
    }

    pub fn last(&self) -> (r: Option<&Deletion>)
        ensures
            match r {
                Some(d) => self@.len() > 0 && d@ == self@.last(),
                None => self@.len() == 0,
            },
    {
        if self.entries.len() == 0 {
            None
        } else {
            Some(&self.entries[self.entries.len() - 1])
        }
    }

    fn push(&mut self, d: Deletion)
        ensures
            final(self)@ == recorded(old(self)@, old(self).spec_limit(), d@),
            final(self).spec_limit() == old(self).spec_limit(),
            old(self).wf() ==> final(self).wf(),
    {
        let ghost before = self.entries@;
        let ghost new = d@;
        self.entries.push(d);
        assert(deletion_facts(self.entries@) == deletion_facts(before).push(new));
        if self.limit > 0 && self.entries.len() > self.limit {
            let ghost all = self.entries@;
            self.entries.remove(0);
            assert(deletion_facts(self.entries@) == deletion_facts(all).drop_first());
        }
    }

    fn pop(&mut self) -> (r: Option<Deletion>)
        ensures
            final(self).spec_limit() == old(self).spec_limit(),
            match r {
                Some(d) => old(self)@.len() > 0 && d@ == old(self)@.last() && final(self)@
                    == old(self)@.drop_last(),
                None => old(self)@.len() == 0 && final(self)@ == old(self)@,
            },
    {
        let ghost before = self.entries@;
        let r = self.entries.pop();
        proof {
            if before.len() > 0 {
                assert(deletion_facts(self.entries@) == deletion_facts(before).drop_last());
            }
        }
        r
    }
}

/// What a deletion leaves in the history: only something that can actually be undone.
pub open spec fn history_after(
    entries: Seq<DeletionFacts>,
    limit: usize,
    d: DeletionFacts,
) -> Seq<DeletionFacts> {
    if d.trashed.len() > 0 {
        recorded(entries, limit, d)
    } else {
        entries
    }
}

/// Delete a group and record it for undo.
pub fn delete_and_record<B: Bin>(
    bin: &mut B,
    history: &mut History,
    stem: &str,
    paths: &Vec<&str>,
) -> (d: Deletion)
    ensures
        final(bin).log() == old(bin).log() + since(old(bin).log(), final(bin).log()),
        deletes(stem@, texts(paths@), since(old(bin).log(), final(bin).log()), d@),
        final(history)@ == history_after(old(history)@, old(history).spec_limit(), d@),
        final(history).spec_limit() == old(history).spec_limit(),
        old(history).wf() ==> final(history).wf(),
{
    let d = delete_group(bin, stem, paths);
    record(history, &d);
    d
}

/// Keep a deletion for undo, if it moved anything.
pub fn record(history: &mut History, d: &Deletion)
    ensures
        final(history)@ == history_after(old(history)@, old(history).spec_limit(), d@),
        final(history).spec_limit() == old(history).spec_limit(),
        old(history).wf() ==> final(history).wf(),
{
    if d.trashed.len() > 0 {
        history.push(d.clone());
    }
}

/// Result of an undo attempt.
#[derive(Debug, PartialEq, Eq)]
pub struct Restore {
    pub stem: String,
    pub restored: Vec<String>,
    pub failed: Vec<(String, String)>,
}

/// The mathematical content of a [`Restore`].
#[verifier::ext_equal]
pub struct RestoreFacts {
    pub stem: Seq<char>,
    pub restored: Seq<Seq<char>>,
    pub failed: Seq<(Seq<char>, Seq<char>)>,
}

impl View for Restore {
    type V = RestoreFacts;

    open spec fn view(&self) -> RestoreFacts {
        RestoreFacts {
            stem: self.stem@,
            restored: scan::strings(self.restored@),
            failed: pairs(self.failed@),
        }
    }
}

impl RestoreFacts {
    pub open spec fn summary(self) -> Seq<char> {
        summary_head("restored"@, self.stem, self.restored.len()) + summary_count(
            self.failed.len(),
            " FAILED"@,
        )
    }

    /// The restore with one more file accounted for; `error` is what went wrong with it.
    pub open spec fn noted(self, p: Seq<char>, error: Option<Seq<char>>) -> RestoreFacts {
        match error {
            None => RestoreFacts { restored: self.restored.push(p), ..self },
            Some(e) => RestoreFacts { failed: self.failed.push((p, e)), ..self },
        }
    }
}

/// The restore of the given files with the given errors.
pub open spec fn restore_tally(
    stem: Seq<char>,
    paths: Seq<Seq<char>>,
    errors: Seq<Option<Seq<char>>>,
) -> RestoreFacts
    decreases paths.len(),
{
    if paths.len() == 0 {
        RestoreFacts { stem, restored: Seq::empty(), failed: Seq::empty() }
    } else {
        restore_tally(stem, paths.drop_last(), errors.drop_last()).noted(
            paths.last(),
            errors.last(),
        )
    }
}

impl Restore {
    /// Account for one more file, given what the trash said.
    pub fn note(&mut self, path: String, said: Result<(), String>)
        ensures
            final(self)@ == old(self)@.noted(path@, error_of(said)),
    {
        let ghost before = *self;
        let ghost (p, e) = (path@, error_of(said));
        match said {
            Ok(_) => self.restored.push(path),
            Err(e) => self.failed.push((path, e)),
        }
        proof {
            if e is None {
                assert(scan::strings(self.restored@) == scan::strings(before.restored@).push(p));
            } else {
                assert(pairs(self.failed@) == pairs(before.failed@).push((p, e->0)));
            }
            assert(self@ == before@.noted(p, e));
        }
    }

    pub fn summary(&self) -> (s: String)
        ensures
            s@ == self@.summary(),
    {
        let mut s = String::new();
        push_head(&mut s, "restored", self.stem.as_str(), self.restored.len());
        push_count(&mut s, self.failed.len(), " FAILED");
        assert(s@ == self@.summary());
        s
    }
}

/// The calls that restoring the files at `paths` took, with the errors that came back.
pub open spec fn restore_trace(paths: Seq<Seq<char>>, errors: Seq<Option<Seq<char>>>) -> Seq<Call> {
    Seq::new(paths.len(), |i: int| Call::Restored(paths[i], errors[i]))
}

/// Restoring the files of the deletion `d` took exactly the calls `calls`, and came to `r`: each
/// file was restored once, in the order in which they were trashed.
pub open spec fn restores(d: DeletionFacts, calls: Seq<Call>, r: RestoreFacts) -> bool {
    exists|errors: Seq<Option<Seq<char>>>|
        {
            &&& errors.len() == d.trashed.len()
            &&& calls == #[trigger] restore_trace(d.trashed, errors)
            &&& r == restore_tally(d.stem, d.trashed, errors)
        }
}

/// Undo the most recent deletion.
///
/// Returns `None` when there is nothing to undo. The entry is consumed either way, so a
/// partially restorable deletion is not retried forever.
pub fn undo<B: Bin>(bin: &mut B, history: &mut History) -> (r: Option<Restore>)
    ensures
        final(history).spec_limit() == old(history).spec_limit(),
        old(history).wf() ==> final(history).wf(),
        final(bin).log() == old(bin).log() + since(old(bin).log(), final(bin).log()),
        match r {
            Some(restore) => {
                &&& old(history)@.len() > 0
                &&& final(history)@ == old(history)@.drop_last()
                &&& restores(
                    old(history)@.last(),
                    since(old(bin).log(), final(bin).log()),
                    restore@,
                )
            },
            None => {
                &&& old(history)@.len() == 0
                &&& final(history)@ == old(history)@
                &&& final(bin).log() == old(bin).log()
            },
        },
{
    let ghost before = bin.log();
    assert(before == before + since(before, before));
    let d = match history.pop() {
        Some(d) => d,
        None => {
            return None;
        },
    };
    let ghost facts = d@;
    let mut r = Restore { stem: d.stem, restored: Vec::new(), failed: Vec::new() };
    let ghost mut errors: Seq<Option<Seq<char>>> = Seq::empty();
    assert(r@ == restore_tally(facts.stem, facts.trashed.take(0), errors));
    assert(before == before + restore_trace(facts.trashed.take(0), errors));
    for i in 0..d.trashed.len()
        invariant
            facts.trashed == scan::strings(d.trashed@),
            errors.len() == i,
            bin.log() == before + restore_trace(facts.trashed.take(i as int), errors),
            r@ == restore_tally(facts.stem, facts.trashed.take(i as int), errors),
    {
        let p = &d.trashed[i];
        let said = bin.restore(p.as_str());
        proof {
            let all = facts.trashed;
            assert(all[i as int] == p@);
            assert(all.take(i + 1).drop_last() == all.take(i as int));
            assert(all.take(i + 1).last() == p@);
            let e = error_of(said);
            assert(errors.push(e).drop_last() == errors);
            assert(bin.log() == before + restore_trace(all.take(i + 1), errors.push(e)));
            errors = errors.push(e);
        }
        r.note(p.clone(), said);
    }
    proof {
        assert(facts.trashed.take(facts.trashed.len() as int) == facts.trashed);
        assert(since(before, bin.log()) == restore_trace(facts.trashed, errors));
    }
    Some(r)
}

proof fn lemma_paths_add(a: Seq<Call>, b: Seq<Call>)
    ensures
        sent_paths(a + b) == sent_paths(a) + sent_paths(b),
        restored_paths(a + b) == restored_paths(a) + restored_paths(b),
    decreases b.len(),
{
    if b.len() == 0 {
        assert(a + b == a);
    } else {
        assert((a + b).drop_last() == a + b.drop_last());
        assert((a + b).last() == b.last());
        lemma_paths_add(a, b.drop_last());
    }
}

/// Each file that was there when it was reached is sent to the trash exactly once, in order; a
/// file that was not there never is; and nothing is restored.
pub proof fn law_each_present_file_is_sent_once(paths: Seq<Seq<char>>, attempts: Seq<Attempt>)
    requires
        attempts.len() == paths.len(),
    ensures
        sent_paths(trace(paths, attempts)) == present(paths, attempts),
        restored_paths(trace(paths, attempts)) == Seq::<Seq<char>>::empty(),
        (forall|i: int| 0 <= i < attempts.len() ==> !(#[trigger] attempts[i] is Missing))
            ==> sent_paths(trace(paths, attempts)) == paths,
    decreases paths.len(),
{
    if paths.len() > 0 {
        let (p, a) = (paths.last(), attempts.last());
        let init = attempts.drop_last();
        law_each_present_file_is_sent_once(paths.drop_last(), init);
        lemma_paths_add(trace(paths.drop_last(), init), a.calls(p));
        reveal_with_fuel(sent_paths, 4);
        reveal_with_fuel(restored_paths, 4);
        let calls = a.calls(p);
        if calls.len() == 3 {
            assert(calls.drop_last() == seq![calls[0], calls[1]]);
            assert(calls.drop_last().drop_last() == seq![calls[0]]);
        } else if calls.len() == 2 {
            assert(calls.drop_last() == seq![calls[0]]);
        }
        assert(sent_paths(calls) == (if a is Missing {
            Seq::<Seq<char>>::empty()
        } else {
            seq![p]
        }));
        assert(sent_paths(trace(paths, attempts)) == present(paths, attempts));
        assert(restored_paths(calls) == Seq::<Seq<char>>::empty());
        if forall|i: int| 0 <= i < attempts.len() ==> !(#[trigger] attempts[i] is Missing) {
            assert forall|i: int| 0 <= i < init.len() implies !(#[trigger] init[i] is Missing) by {
                assert(init[i] == attempts[i]);
            }
            assert(attempts[attempts.len() - 1] == a);
            assert(paths.drop_last().push(p) == paths);
        }
    }
}

/// Every file that was asked for was there, and nothing went wrong.
pub open spec fn untroubled(calls: Seq<Call>) -> bool {
    forall|i: int|
        0 <= i < calls.len() ==> match #[trigger] calls[i] {
            Call::Looked(_, there) => there,
            Call::Sent(_, error) => error is None,
            Call::Restored(_, error) => error is None,
        }
}

/// When every file is there and the trash takes it, all of them are trashed, each is sent once
/// and in order, and none is missing or has failed.
pub proof fn law_untroubled_delete_trashes_everything(
    stem: Seq<char>,
    paths: Seq<Seq<char>>,
    attempts: Seq<Attempt>,
)
    requires
        attempts.len() == paths.len(),
        untroubled(trace(paths, attempts)),
    ensures
        tally(stem, paths, fates(attempts)) == (DeletionFacts {
            stem,
            trashed: paths,
            already_absent: Seq::empty(),
            failed: Seq::empty(),
        }),
        sent_paths(trace(paths, attempts)) == paths,
        restored_paths(trace(paths, attempts)) == Seq::<Seq<char>>::empty(),
    decreases paths.len(),
{
    if paths.len() > 0 {
        let (p, a) = (paths.last(), attempts.last());
        let init = attempts.drop_last();
        let before = trace(paths.drop_last(), init);
        let calls = a.calls(p);
        let all = trace(paths, attempts);
        assert forall|i: int| 0 <= i < before.len() implies before[i] == #[trigger] all[i] by {}
        assert(untroubled(before)) by {
            assert forall|i: int| 0 <= i < before.len() implies match #[trigger] before[i] {
                Call::Looked(_, there) => there,
                Call::Sent(_, error) => error is None,
                Call::Restored(_, error) => error is None,
            } by {
                assert(before[i] == all[i]);
            }
        }
        law_untroubled_delete_trashes_everything(stem, paths.drop_last(), init);
        law_each_present_file_is_sent_once(paths, attempts);
        assert(a is Taken) by {
            assert(all[before.len() as int] == calls[0]);
            if calls.len() > 1 {
                assert(all[before.len() as int + 1] == calls[1]);
            }
        }
        assert(fates(attempts).drop_last() == fates(init));
        assert(paths.drop_last().push(p) == paths);
        assert(present(paths.drop_last(), init) == paths.drop_last()) by {
            law_each_present_file_is_sent_once(paths.drop_last(), init);
        }
    }
}

/// An undo restores each file that was trashed exactly once, in order, and sends nothing to
/// the trash.
pub proof fn law_each_trashed_file_is_restored_once(
    paths: Seq<Seq<char>>,
    errors: Seq<Option<Seq<char>>>,
)
    requires
        errors.len() == paths.len(),
    ensures
        restored_paths(restore_trace(paths, errors)) == paths,
        sent_paths(restore_trace(paths, errors)) == Seq::<Seq<char>>::empty(),
    decreases paths.len(),
{
    if paths.len() > 0 {
        law_each_trashed_file_is_restored_once(paths.drop_last(), errors.drop_last());
        assert(restore_trace(paths, errors).drop_last() == restore_trace(
            paths.drop_last(),
            errors.drop_last(),
        ));
        assert(paths.drop_last().push(paths.last()) == paths);
    }
}

/// What was deleted last is what an undo restores first.
pub proof fn law_undo_takes_the_newest(
    entries: Seq<DeletionFacts>,
    limit: usize,
    d: DeletionFacts,
)
    requires
        d.trashed.len() > 0,
        limit > 0 ==> entries.len() <= limit,
    ensures
        history_after(entries, limit, d).len() > 0,
        history_after(entries, limit, d).last() == d,
        limit == 0 || entries.len() < limit ==> history_after(entries, limit, d).drop_last()
            == entries,
{
    assert(entries.push(d).drop_last() == entries);
}

/// Every file of a group is accounted for exactly once, whatever the trash does: one failure
/// does not abort the rest.
pub proof fn law_every_file_is_accounted_for(
    stem: Seq<char>,
    paths: Seq<Seq<char>>,
    fates: Seq<FateFacts>,
)
    requires
        fates.len() == paths.len(),
    ensures
        ({
            let d = tally(stem, paths, fates);
            d.trashed.len() + d.already_absent.len() + d.failed.len() == paths.len()
        }),
        tally(stem, paths, fates).failed.len() == 0 <==> (forall|i: int|
            0 <= i < fates.len() ==> !(#[trigger] fates[i] is Failed)),
    decreases paths.len(),
{
    if paths.len() > 0 {
        law_every_file_is_accounted_for(stem, paths.drop_last(), fates.drop_last());
        let init = fates.drop_last();
        assert(forall|i: int| 0 <= i < init.len() ==> init[i] == fates[i]);
        assert(fates.last() == fates[fates.len() - 1]);
        if forall|i: int| 0 <= i < init.len() ==> !(#[trigger] init[i] is Failed) {
            assert forall|i: int| 0 <= i < fates.len() && !(fates.last() is Failed) implies !(
            #[trigger] fates[i] is Failed) by {
                if i < init.len() {
                    assert(init[i] == fates[i]);
                }
            }
        } else {
            let k = choose|k: int| 0 <= k < init.len() && (#[trigger] init[k] is Failed);
            assert(fates[k] is Failed);
        }
    }
}

/// When the trash gives every file back, an undo restores exactly what the deletion moved, in
/// the same order.
pub proof fn law_undo_restores_the_whole_group(
    stem: Seq<char>,
    paths: Seq<Seq<char>>,
    errors: Seq<Option<Seq<char>>>,
)
    requires
        errors.len() == paths.len(),
        forall|i: int| 0 <= i < errors.len() ==> #[trigger] errors[i] is None,
    ensures
        restore_tally(stem, paths, errors) == (RestoreFacts {
            stem,
            restored: paths,
            failed: Seq::empty(),
        }),
    decreases paths.len(),
{
    if paths.len() > 0 {
        assert(forall|i: int| 0 <= i < errors.drop_last().len() ==> errors.drop_last()[i] == errors[i]);
        law_undo_restores_the_whole_group(stem, paths.drop_last(), errors.drop_last());
        assert(errors.last() is None);
        assert(paths.drop_last().push(paths.last()) == paths);
    }
}

/// A file in the trash: where it was, and when it was deleted.
#[derive(Debug)]
pub struct Trashed {
    pub original: String,
    pub deleted: i64,
}

/// `e` is an entry for the file at `p`.
pub open spec fn is_entry_for(e: Trashed, p: Seq<char>) -> bool {
    path::canonical(e.original@) == path::canonical(p)
}

/// Which of the entries to restore for the file at `p`: the most recent one, and of equals the
/// one that is listed last.
pub fn newest_entry(entries: &Vec<Trashed>, p: &str) -> (r: Option<usize>)
    ensures
        match r {
            Some(n) => {
                &&& n < entries@.len()
                &&& is_entry_for(entries@[n as int], p@)
                &&& forall|i: int|
                    0 <= i < entries@.len() && is_entry_for(#[trigger] entries@[i], p@)
                        ==> entries@[i].deleted <= entries@[n as int].deleted
                &&& forall|i: int|
                    n < i < entries@.len() && is_entry_for(#[trigger] entries@[i], p@)
                        ==> entries@[i].deleted < entries@[n as int].deleted
            },
            None => forall|i: int|
                0 <= i < entries@.len() ==> !is_entry_for(#[trigger] entries@[i], p@),
        },
{
    let wanted = path::canonical_text(p);
    let mut newest: Option<usize> = None;
    for i in 0..entries.len()
        invariant
            wanted@ == path::canonical(p@),
            match newest {
                Some(n) => {
                    &&& n < i
                    &&& is_entry_for(entries@[n as int], p@)
                    &&& forall|k: int|
                        0 <= k < i && is_entry_for(#[trigger] entries@[k], p@)
                            ==> entries@[k].deleted <= entries@[n as int].deleted
                    &&& forall|k: int|
                        n < k < i && is_entry_for(#[trigger] entries@[k], p@)
                            ==> entries@[k].deleted < entries@[n as int].deleted
                },
                None => forall|k: int|
                    0 <= k < i ==> !is_entry_for(#[trigger] entries@[k], p@),
            },
    {
        let this = path::canonical_text(entries[i].original.as_str());
        if this == wanted {
            let replace = match newest {
                Some(n) => entries[n].deleted <= entries[i].deleted,
                None => true,
            };
            if replace {
                newest = Some(i);
            }
        }
    }
    newest
}

/// A file is looked for first. One that is not there is reported as gone and nothing is sent; one
/// that is there is sent, and reported as trashed where that works; where it does not, it is
/// looked for again, and reported as failed if it is still there and as gone if it is not.
pub proof fn law_file_is_looked_for_then_sent(
    stem: Seq<char>,
    p: Seq<char>,
    calls: Seq<Call>,
    d: DeletionFacts,
)
    requires
        deletes(stem, seq![p], calls, d),
    ensures
        d.stem == stem,
        calls.len() > 0,
        calls[0] matches Call::Looked(q, there) && q == p && match there {
            false => {
                &&& calls.len() == 1
                &&& d.trashed.len() == 0 && d.failed.len() == 0
                &&& d.already_absent == seq![p]
            },
            true => {
                &&& calls.len() > 1
                &&& calls[1] matches Call::Sent(s, error) && s == p && match error {
                    None => {
                        &&& calls.len() == 2
                        &&& d.trashed == seq![p]
                        &&& d.already_absent.len() == 0 && d.failed.len() == 0
                    },
                    Some(e) => {
                        &&& calls.len() == 3
                        &&& calls[2] matches Call::Looked(t, remains) && t == p && d.trashed.len()
                            == 0 && (remains ==> d.failed == seq![(p, e)] && d.already_absent.len()
                            == 0) && (!remains ==> d.already_absent == seq![p] && d.failed.len()
                            == 0)
                    },
                }
            },
        },
{
    let paths = seq![p];
    let attempts = choose|attempts: Seq<Attempt>|
        {
            &&& attempts.len() == paths.len()
            &&& calls == #[trigger] trace(paths, attempts)
            &&& d == tally(stem, paths, fates(attempts))
        };
    let a = attempts[0];
    assert(paths.drop_last() == Seq::<Seq<char>>::empty());
    assert(attempts.drop_last() == Seq::<Attempt>::empty());
    assert(trace(paths.drop_last(), attempts.drop_last()) == Seq::<Call>::empty());
    assert(calls == a.calls(p));
    let f = fates(attempts);
    assert(f.drop_last() == Seq::<FateFacts>::empty());
    assert(f.last() == a.fate());
    let none = tally(stem, paths.drop_last(), f.drop_last());
    assert(d == none.noted(p, a.fate()));
    assert(none.trashed.push(p) == seq![p]);
    assert(none.already_absent.push(p) == seq![p]);
    if let Attempt::Refused(e, remains) = a {
        assert(none.failed.push((p, e)) == seq![(p, e)]);
    }
}

/// The files of a group are dealt with one after the other, each as if it were alone: whatever
/// became of the ones before, the next is tried, and the report adds up.
pub proof fn law_files_are_tried_one_by_one(
    stem: Seq<char>,
    paths: Seq<Seq<char>>,
    p: Seq<char>,
    calls: Seq<Call>,
    d: DeletionFacts,
)
    requires
        deletes(stem, paths.push(p), calls, d),
    ensures
        exists|before: Seq<Call>, after: Seq<Call>, c: DeletionFacts, e: DeletionFacts|
            {
                &&& #[trigger] deletes(stem, paths, before, c)
                &&& #[trigger] deletes(stem, seq![p], after, e)
                &&& calls == before + after
                &&& d.stem == stem
                &&& d.trashed == c.trashed + e.trashed
                &&& d.already_absent == c.already_absent + e.already_absent
                &&& d.failed == c.failed + e.failed
            },
{
    let all = paths.push(p);
    let attempts = choose|attempts: Seq<Attempt>|
        {
            &&& attempts.len() == all.len()
            &&& calls == #[trigger] trace(all, attempts)
            &&& d == tally(stem, all, fates(attempts))
        };
    let (init, a) = (attempts.drop_last(), attempts.last());
    assert(all.drop_last() == paths);
    let before = trace(paths, init);
    let c = tally(stem, paths, fates(init));
    assert(fates(attempts).drop_last() == fates(init));
    assert(fates(attempts).last() == a.fate());
    assert(deletes(stem, paths, before, c));
    let one = seq![a];
    let after = trace(seq![p], one);
    let e = tally(stem, seq![p], fates(one));
    assert(deletes(stem, seq![p], after, e));
    assert(seq![p].drop_last() == Seq::<Seq<char>>::empty());
    assert(one.drop_last() == Seq::<Attempt>::empty());
    assert(trace(seq![p].drop_last(), one.drop_last()) == Seq::<Call>::empty());
    assert(after == a.calls(p));
    assert(fates(one).drop_last() == Seq::<FateFacts>::empty());
    assert(fates(one).last() == a.fate());
    let none = tally(stem, Seq::empty(), Seq::empty());
    assert(e == none.noted(p, a.fate()));
    lemma_tally_stem(stem, paths, fates(init));
    assert(d.trashed == c.trashed + e.trashed);
    assert(d.already_absent == c.already_absent + e.already_absent);
    assert(d.failed == c.failed + e.failed);
}

proof fn lemma_tally_stem(stem: Seq<char>, paths: Seq<Seq<char>>, fates: Seq<FateFacts>)
    ensures
        tally(stem, paths, fates).stem == stem,
    decreases paths.len(),
{
    if paths.len() > 0 {
        lemma_tally_stem(stem, paths.drop_last(), fates.drop_last());
    }
}

/// Deleting nothing asks nothing of the trash and reports nothing.
pub proof fn law_deleting_nothing_does_nothing(
    stem: Seq<char>,
    calls: Seq<Call>,
    d: DeletionFacts,
)
    requires
        deletes(stem, Seq::empty(), calls, d),
    ensures
        calls.len() == 0,
        d.stem == stem,
        d.trashed.len() == 0 && d.already_absent.len() == 0 && d.failed.len() == 0,
{
}

proof fn lemma_restore_tally(
    stem: Seq<char>,
    paths: Seq<Seq<char>>,
    errors: Seq<Option<Seq<char>>>,
    i: int,
)
    requires
        errors.len() == paths.len(),
        0 <= i < paths.len(),
    ensures
        ({
            let r = restore_tally(stem, paths, errors);
            &&& r.stem == stem
            &&& errors[i] is None ==> r.restored.contains(paths[i])
            &&& errors[i] matches Some(e) ==> r.failed.contains((paths[i], e))
            &&& r.restored.len() + r.failed.len() == paths.len()
        }),
    decreases paths.len(),
{
    let (p, e) = (paths.drop_last(), errors.drop_last());
    let r = restore_tally(stem, paths, errors);
    let before = restore_tally(stem, p, e);
    if p.len() > 0 {
        let k = if i < p.len() {
            i
        } else {
            0
        };
        lemma_restore_tally(stem, p, e, k);
        if i < p.len() {
            assert(p[i] == paths[i] && e[i] == errors[i]);
            if errors[i] is None {
                let n = choose|n: int| 0 <= n < before.restored.len() && before.restored[n] == p[i];
                assert(r.restored[n] == paths[i]);
            } else {
                let n = choose|n: int|
                    0 <= n < before.failed.len() && before.failed[n] == (p[i], e[i]->0);
                assert(r.failed[n] == (paths[i], errors[i]->0));
            }
        }
    }
    if i == p.len() {
        if errors[i] is None {
            assert(r.restored[r.restored.len() - 1] == paths[i]);
        } else {
            assert(r.failed[r.failed.len() - 1] == (paths[i], errors[i]->0));
        }
    }
}

/// An undo asks for every file that was trashed, in order, and for nothing else; what came back is
/// reported as restored, and what did not as failed, with the reason.
pub proof fn law_undo_reports_what_came_back(
    d: DeletionFacts,
    calls: Seq<Call>,
    r: RestoreFacts,
    i: int,
)
    requires
        restores(d, calls, r),
        0 <= i < d.trashed.len(),
    ensures
        calls.len() == d.trashed.len(),
        r.stem == d.stem,
        r.restored.len() + r.failed.len() == d.trashed.len(),
        calls[i] matches Call::Restored(p, error) && p == d.trashed[i] && (error is None
            ==> r.restored.contains(p)) && (error matches Some(e) ==> r.failed.contains((p, e))),
{
    let errors = choose|errors: Seq<Option<Seq<char>>>|
        {
            &&& errors.len() == d.trashed.len()
            &&& calls == #[trigger] restore_trace(d.trashed, errors)
            &&& r == restore_tally(d.stem, d.trashed, errors)
        };
    lemma_restore_tally(d.stem, d.trashed, errors, i);
}

/// A deletion that moved something is remembered last, behind all that were before it; where
/// there is no room, the oldest is forgotten for it. One that moved nothing is not remembered.
pub proof fn law_history_forgets_the_oldest(
    entries: Seq<DeletionFacts>,
    limit: usize,
    d: DeletionFacts,
)
    ensures
        ({
            let after = history_after(entries, limit, d);
            &&& d.trashed.len() == 0 ==> after == entries
            &&& d.trashed.len() > 0 ==> after.len() > 0 && after[after.len() - 1] == d
            &&& d.trashed.len() > 0 && (limit == 0 || entries.len() < limit) ==> {
                &&& after.len() == entries.len() + 1
                &&& forall|i: int| 0 <= i < entries.len() ==> #[trigger] after[i] == entries[i]
            }
            &&& d.trashed.len() > 0 && limit > 0 && entries.len() == limit ==> {
                &&& after.len() == entries.len()
                &&& forall|i: int|
                    0 <= i < entries.len() - 1 ==> #[trigger] after[i] == entries[i + 1]
            }
        }),
{
}

/// The report names the group and says how many of its files were trashed, and, where there are
/// any, how many were gone already and how many could not be trashed; that of an undo likewise.
pub proof fn law_report_counts_the_files(d: DeletionFacts, r: RestoreFacts)
    ensures
        ({
            let head = "trashed"@ + seq![' '] + d.stem + " ("@ + text::decimal(d.trashed.len())
                + " files)"@;
            let gone = ", "@ + text::decimal(d.already_absent.len()) + " already gone"@;
            let failed = ", "@ + text::decimal(d.failed.len()) + " FAILED"@;
            &&& d.already_absent.len() == 0 && d.failed.len() == 0 ==> d.summary() == head
            &&& d.already_absent.len() > 0 && d.failed.len() == 0 ==> d.summary() == head + gone
            &&& d.already_absent.len() == 0 && d.failed.len() > 0 ==> d.summary() == head + failed
            &&& d.already_absent.len() > 0 && d.failed.len() > 0 ==> d.summary() == head + gone
                + failed
        }),
        ({
            let head = "restored"@ + seq![' '] + r.stem + " ("@ + text::decimal(r.restored.len())
                + " files)"@;
            &&& r.failed.len() == 0 ==> r.summary() == head
            &&& r.failed.len() > 0 ==> r.summary() == head + (", "@ + text::decimal(r.failed.len())
                + " FAILED"@)
        }),
{
    let head = summary_head("trashed"@, d.stem, d.trashed.len());
    let gone = summary_count(d.already_absent.len(), " already gone"@);
    assert(head + Seq::<char>::empty() == head);
    assert(head + gone + Seq::<char>::empty() == head + gone);
    let back = summary_head("restored"@, r.stem, r.restored.len());
    assert(back + Seq::<char>::empty() == back);
}

} // verus!

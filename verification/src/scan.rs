//! Grouping files by basename, and describing what a group holds.
//!
//! A "group" is every file sharing a basename stem: `A6709605.JPG`, `A6709605.ARW`, and
//! any `A6709605.*.pp3` / `.xmp` sidecars are one unit. The user navigates and deletes
//! groups, never individual files.
//!
//! Grouping is by stem rather than by a JPEG/RAW pairing rule so that unanticipated
//! sidecar conventions are swept along for free: RawTherapee writes `A6701113.ARW.pp3`,
//! i.e. full-name-plus-extension, which a pairing rule would miss but a stem rule catches.
use rayon::iter::{IntoParallelIterator, ParallelIterator};
use vstd::prelude::*;
use crate::path;
use crate::text;

verus! {

/// Role of a file within its group.
#[derive(Clone, Copy, PartialEq, Eq, Debug, Structural)]
pub enum Role {
    /// A file that can be decoded and shown.
    Displayable,
    /// Carried along on delete, never displayed.
    Sidecar,
}

#[derive(Debug)]
pub struct Member {
    pub path: String,
    pub role: Role,
    /// Lowercased extension, for display-preference ranking.
    pub ext: String,
}

/// The mathematical content of a [`Member`].
#[verifier::ext_equal]
pub struct MemberFacts {
    pub path: Seq<char>,
    pub role: Role,
    pub ext: Seq<char>,
}

impl View for Member {
    type V = MemberFacts;

    open spec fn view(&self) -> MemberFacts {
        MemberFacts { path: self.path@, role: self.role, ext: self.ext@ }
    }
}

impl Clone for Member {
    fn clone(&self) -> (m: Self)
        ensures
            m@ == self@,
    {
        Member { path: self.path.clone(), role: self.role, ext: self.ext.clone() }
    }
}

/// The content of each member of a list.
pub open spec fn member_facts(ms: Seq<Member>) -> Seq<MemberFacts> {
    Seq::new(ms.len(), |i: int| ms[i]@)
}

/// One navigable item: all files sharing a basename stem within a directory.
#[derive(Debug)]
pub struct Group {
    /// Directory containing the group.
    pub dir: String,
    /// Shared basename stem, e.g. `A6709605`.
    pub stem: String,
    pub members: Vec<Member>,
}

/// The mathematical content of a [`Group`].
#[verifier::ext_equal]
pub struct GroupFacts {
    pub dir: Seq<char>,
    pub stem: Seq<char>,
    pub members: Seq<MemberFacts>,
}

impl View for Group {
    type V = GroupFacts;

    open spec fn view(&self) -> GroupFacts {
        GroupFacts { dir: self.dir@, stem: self.stem@, members: member_facts(self.members@) }
    }
}

impl Clone for Group {
    fn clone(&self) -> (g: Self)
        ensures
            g@ == self@,
    {
        let mut members: Vec<Member> = Vec::new();
        for i in 0..self.members.len()
            invariant
                member_facts(members@) == member_facts(self.members@).take(i as int),
        {
            let ghost before = members@;
            members.push(self.members[i].clone());
            assert(member_facts(members@) == member_facts(before).push(self.members@[i as int]@));
            assert(member_facts(self.members@).take(i + 1) == member_facts(self.members@).take(
                i as int,
            ).push(self.members@[i as int]@));
        }
        assert(member_facts(self.members@).take(self.members@.len() as int) == member_facts(
            self.members@,
        ));
        Group { dir: self.dir.clone(), stem: self.stem.clone(), members }
    }
}

/// The content of each group of a list.
pub open spec fn group_facts(gs: Seq<Group>) -> Seq<GroupFacts> {
    Seq::new(gs.len(), |i: int| gs[i]@)
}

/// The content of each string of a list.
pub open spec fn strings(v: Seq<String>) -> Seq<Seq<char>> {
    Seq::new(v.len(), |i: int| v[i]@)
}

/// The first `.` of `s` at or after `i`, or the end.
pub open spec fn first_dot(s: Seq<char>, i: int) -> int
    decreases s.len() - i,
{
    if i < 0 || i >= s.len() {
        s.len() as int
    } else if s[i] == '.' {
        i
    } else {
        first_dot(s, i + 1)
    }
}

/// The last `.` of `s`, or -1.
pub open spec fn last_dot(s: Seq<char>) -> int
    decreases s.len(),
{
    if s.len() == 0 {
        -1
    } else if s.last() == '.' {
        s.len() - 1
    } else {
        last_dot(s.drop_last())
    }
}

/// An ASCII capital in lower case; every other character as it is.
pub open spec fn lower(c: char) -> char {
    if 'A' <= c && c <= 'Z' {
        (c as u8 + 32) as char
    } else {
        c
    }
}

/// `name` without its leading dot.
pub open spec fn undotted(name: Seq<char>) -> Seq<char> {
    if name.len() > 0 && name[0] == '.' {
        name.subrange(1, name.len() as int)
    } else {
        name
    }
}

/// The grouping stem of a file name: everything before the first dot, a leading dot included.
pub open spec fn stem_of_name(name: Seq<char>) -> Seq<char> {
    let rest = undotted(name);
    let lead = name.len() - rest.len();
    name.subrange(0, lead + first_dot(rest, 0))
}

/// The extension of a file name: what follows the last dot, a leading one excepted, in lower
/// case.
pub open spec fn ext_of_name(name: Seq<char>) -> Seq<char> {
    let rest = undotted(name);
    if last_dot(rest) < 0 {
        Seq::empty()
    } else {
        let e = rest.subrange(last_dot(rest) + 1, rest.len() as int);
        Seq::new(e.len(), |i: int| lower(e[i]))
    }
}

proof fn lemma_first_dot(s: Seq<char>, i: int)
    requires
        0 <= i <= s.len(),
    ensures
        i <= first_dot(s, i) <= s.len(),
    decreases s.len() - i,
{
    if i < s.len() && s[i] != '.' {
        lemma_first_dot(s, i + 1);
    }
}

/// An ASCII capital in lower case; every other character as it is.
pub fn lower_ascii(c: char) -> (r: char)
    ensures
        r == lower(c),
{
    if 'A' <= c && c <= 'Z' {
        (c as u8 + 32) as char
    } else {
        c
    }
}

/// Split a filename into the grouping stem and a lowercased final extension.
///
/// The stem is everything before the *first* dot, which is what makes
/// `A6701113.ARW.pp3` group with `A6701113.JPG`. Leading dots are preserved so hidden
/// files do not all collapse into one group with an empty stem.
pub fn split_name(name: &str) -> (r: (String, String))
    ensures
        r.0@ == stem_of_name(name@),
        r.1@ == ext_of_name(name@),
{
    let v = text::to_chars(name);
    let len: usize = v.len();
    let lead: usize = if len > 0 && v[0] == '.' {
        1
    } else {
        0
    };
    let ghost rest = undotted(name@);
    assert(rest == name@.subrange(lead as int, len as int));
    let mut first: usize = lead;
    while first < len && v[first] != '.'
        invariant
            v@ == name@,
            len == v@.len(),
            lead <= first <= len,
            rest == name@.subrange(lead as int, len as int),
            first_dot(rest, 0) == first_dot(rest, first - lead),
        decreases len - first,
    {
        assert(rest[first - lead] == v@[first as int]);
        first = first + 1;
    }
    proof {
        if first < len {
            assert(rest[first - lead] == v@[first as int]);
        }
        assert(first_dot(rest, 0) == first - lead);
    }
    let stem = text::from_chars(vstd::slice::slice_subrange(v.as_slice(), 0, first));
    let mut last: usize = len;
    assert(rest.subrange(0, len - lead) == rest);
    while last > lead && v[last - 1] != '.'
        invariant
            v@ == name@,
            len == v@.len(),
            lead <= last <= len,
            rest == name@.subrange(lead as int, len as int),
            last_dot(rest) == last_dot(rest.subrange(0, last - lead)),
        decreases last,
    {
        let ghost s = rest.subrange(0, last - lead);
        assert(s.last() == v@[last - 1]);
        assert(s.drop_last() == rest.subrange(0, last - 1 - lead));
        last = last - 1;
    }
    let mut ext = String::new();
    if last > lead {
        let ghost e = rest.subrange(last - lead, rest.len() as int);
        proof {
            let s = rest.subrange(0, last - lead);
            assert(s.last() == v@[last - 1]);
            assert(last_dot(rest) == last - lead - 1);
        }
        for k in last..len
            invariant
                v@ == name@,
                len == v@.len(),
                lead <= last <= len,
                rest == name@.subrange(lead as int, len as int),
                e == rest.subrange(last - lead, rest.len() as int),
                ext@ == Seq::new((k - last) as nat, |i: int| lower(e[i])),
        {
            assert(e[k - last] == v@[k as int]);
            ext.push(lower_ascii(v[k]));
            assert(ext@ == Seq::new((k + 1 - last) as nat, |i: int| lower(e[i])));
        }
    } else {
        assert(rest.subrange(0, 0).len() == 0);
        assert(ext@ == ext_of_name(name@));
    }
    (stem, ext)
}

/// How far down the list of preferred extensions `ext` stands, best first; 3 when it is none
/// that can be displayed.
pub open spec fn preference(ext: Seq<char>) -> int {
    if ext == "jpg"@ {
        0
    } else if ext == "jpeg"@ {
        1
    } else if ext == "arw"@ {
        2
    } else {
        3
    }
}

/// The role of a file by its extension.
pub open spec fn role_of(ext: Seq<char>) -> Role {
    if preference(ext) < 3 {
        Role::Displayable
    } else {
        Role::Sidecar
    }
}

/// `a` is the literal `b`.
fn same(a: &String, b: &str) -> (r: bool)
    ensures
        r == (a@ == b@),
{
    let b = String::from_str(b);
    *a == b
}

fn rank_of(ext: &String) -> (n: u8)
    ensures
        n == preference(ext@),
{
    if same(ext, "jpg") {
        0
    } else if same(ext, "jpeg") {
        1
    } else if same(ext, "arw") {
        2
    } else {
        3
    }
}

pub fn role_for(ext: &String) -> (r: Role)
    ensures
        r == role_of(ext@),
{
    if rank_of(ext) < 3 {
        Role::Displayable
    } else {
        Role::Sidecar
    }
}

/// The stem that a file groups under; none for a path without a file name.
pub open spec fn stem_of(p: Seq<char>) -> Option<Seq<char>> {
    match path::spec_file_name(p) {
        Some(name) => if stem_of_name(name).len() > 0 {
            Some(stem_of_name(name))
        } else {
            None
        },
        None => None,
    }
}

/// A file as a member of its group.
pub open spec fn member_of(p: Seq<char>) -> MemberFacts {
    let ext = match path::spec_file_name(p) {
        Some(name) => ext_of_name(name),
        None => Seq::empty(),
    };
    MemberFacts { path: p, role: role_of(ext), ext }
}

/// `p` sorts before `q`.
pub open spec fn path_before(p: Seq<char>, q: Seq<char>) -> bool {
    text::before(path::path_key(p), path::path_key(q))
}

/// `ms`, in path order, with `m` added behind every member that does not sort after it.
pub open spec fn insert_member(ms: Seq<MemberFacts>, m: MemberFacts) -> Seq<MemberFacts>
    decreases ms.len(),
{
    if ms.len() > 0 && path_before(m.path, ms.last().path) {
        insert_member(ms.drop_last(), m).push(ms.last())
    } else {
        ms.push(m)
    }
}

/// The files with the given stem as members, in path order; equal paths as they came.
pub open spec fn members_of(files: Seq<Seq<char>>, stem: Seq<char>) -> Seq<MemberFacts>
    decreases files.len(),
{
    if files.len() == 0 {
        Seq::empty()
    } else {
        let ms = members_of(files.drop_last(), stem);
        if stem_of(files.last()) == Some(stem) {
            insert_member(ms, member_of(files.last()))
        } else {
            ms
        }
    }
}

/// Some member can be displayed.
pub open spec fn displayable(ms: Seq<MemberFacts>) -> bool {
    exists|i: int| 0 <= i < ms.len() && (#[trigger] ms[i]).role == Role::Displayable
}

/// `groups` has a group with the given stem.
pub open spec fn has_stem(groups: Seq<GroupFacts>, stem: Seq<char>) -> bool {
    exists|i: int| 0 <= i < groups.len() && (#[trigger] groups[i]).stem == stem
}

/// `groups` are the groups of the files of `dir`: one for each stem under which something can
/// be displayed, with all the files of that stem, in the order of the stems.
pub open spec fn grouped(
    dir: Seq<char>,
    files: Seq<Seq<char>>,
    groups: Seq<GroupFacts>,
) -> bool {
    &&& forall|i: int|
        0 <= i < groups.len() ==> {
            &&& (#[trigger] groups[i]).dir == dir
            &&& groups[i].members == members_of(files, groups[i].stem)
            &&& displayable(groups[i].members)
        }
    &&& forall|i: int, j: int|
        0 <= i < j < groups.len() ==> text::before(
            text::codes(#[trigger] groups[i].stem),
            text::codes(#[trigger] groups[j].stem),
        )
    &&& forall|stem: Seq<char>|
        displayable(#[trigger] members_of(files, stem)) ==> has_stem(groups, stem)
}

/// The files of one stem while grouping is under way.
struct Bucket {
    /// Code points of the stem.
    key: Vec<u32>,
    stem: String,
    members: Vec<Member>,
    /// The members' sort keys.
    keys: Vec<Vec<u32>>,
}

impl Bucket {
    /// The bucket's keys are those of its stem and members.
    spec fn keyed(&self) -> bool {
        &&& self.key@ == text::codes(self.stem@)
        &&& self.keys@.len() == self.members@.len()
        &&& forall|i: int|
            0 <= i < self.keys@.len() ==> (#[trigger] self.keys@[i])@ == path::path_key(
                self.members@[i].path@,
            )
    }

    /// The bucket holds exactly the files of its stem.
    spec fn holds(&self, files: Seq<Seq<char>>) -> bool {
        self.keyed() && member_facts(self.members@) == members_of(files, self.stem@)
    }

    /// Put a file in its place.
    fn add(&mut self, m: Member, key: Vec<u32>)
        requires
            old(self).keyed(),
            key@ == path::path_key(m.path@),
        ensures
            final(self).keyed(),
            final(self).stem@ == old(self).stem@,
            final(self).key@ == old(self).key@,
            member_facts(final(self).members@) == insert_member(
                member_facts(old(self).members@),
                m@,
            ),
    {
        let mut at: usize = self.keys.len();
        let ghost ms = member_facts(self.members@);
        let ghost keys = self.keys@;
        let ghost members = self.members@;
        while at > 0 && text::is_before(&key, &self.keys[at - 1])
            invariant
                self.keyed(),
                at <= self.keys@.len(),
                ms == member_facts(self.members@),
                key@ == path::path_key(m.path@),
                forall|k: int| at <= k < ms.len() ==> path_before(m.path@, (#[trigger] ms[k]).path),
            decreases at,
        {
            assert(ms[at - 1].path == self.members@[at - 1].path@);
            at = at - 1;
        }
        proof {
            if at > 0 {
                assert(ms[at - 1].path == self.members@[at - 1].path@);
            }
            lemma_insert_member(ms, m@, at as int);
        }
        let ghost new = m;
        self.members.insert(at, m);
        self.keys.insert(at, key);
        proof {
            assert(member_facts(self.members@) == ms.insert(at as int, new@));
            assert forall|i: int| 0 <= i < self.keys@.len() implies (
            #[trigger] self.keys@[i])@ == path::path_key(self.members@[i].path@) by {
                if i < at {
                    assert(self.keys@[i] == keys[i] && self.members@[i] == members[i]);
                } else if i > at {
                    assert(self.keys@[i] == keys[i - 1] && self.members@[i] == members[i - 1]);
                }
            }
        }
    }
}

proof fn lemma_insert_member(ms: Seq<MemberFacts>, m: MemberFacts, at: int)
    requires
        0 <= at <= ms.len(),
        forall|k: int| at <= k < ms.len() ==> path_before(m.path, (#[trigger] ms[k]).path),
        at > 0 ==> !path_before(m.path, ms[at - 1].path),
    ensures
        insert_member(ms, m) == ms.insert(at, m),
    decreases ms.len(),
{
    if at < ms.len() {
        assert(ms.last() == ms[ms.len() - 1]);
        lemma_insert_member(ms.drop_last(), m, at);
        assert(ms.insert(at, m) == ms.drop_last().insert(at, m).push(ms.last()));
    } else {
        assert(ms.insert(at, m) == ms.push(m));
    }
}

/// The buckets hold the groups of the files seen so far, in the order of their stems.
spec fn bucketed(files: Seq<Seq<char>>, bs: Seq<Bucket>) -> bool {
    &&& forall|i: int| 0 <= i < bs.len() ==> (#[trigger] bs[i]).holds(files)
    &&& forall|i: int, j: int|
        0 <= i < j < bs.len() ==> text::before(
            (#[trigger] bs[i]).key@,
            (#[trigger] bs[j]).key@,
        )
    &&& forall|k: int|
        0 <= k < files.len() && stem_of(#[trigger] files[k]) is Some ==> has_bucket(
            bs,
            stem_of(files[k])->0,
        )
}

spec fn has_bucket(bs: Seq<Bucket>, stem: Seq<char>) -> bool {
    exists|i: int| 0 <= i < bs.len() && (#[trigger] bs[i]).stem@ == stem
}

/// Where the bucket with the given key stands, or would stand.
fn find_bucket(bs: &Vec<Bucket>, key: &Vec<u32>) -> (at: usize)
    requires
        forall|i: int, j: int|
            0 <= i < j < bs@.len() ==> text::before(
                (#[trigger] bs@[i]).key@,
                (#[trigger] bs@[j]).key@,
            ),
    ensures
        at <= bs@.len(),
        forall|i: int| 0 <= i < at ==> text::before((#[trigger] bs@[i]).key@, key@),
        forall|i: int| at <= i < bs@.len() ==> !text::before((#[trigger] bs@[i]).key@, key@),
{
    let mut lo: usize = 0;
    let mut hi: usize = bs.len();
    while lo < hi
        invariant
            lo <= hi <= bs@.len(),
            forall|i: int, j: int|
                0 <= i < j < bs@.len() ==> text::before(
                    (#[trigger] bs@[i]).key@,
                    (#[trigger] bs@[j]).key@,
                ),
            forall|i: int| 0 <= i < lo ==> text::before((#[trigger] bs@[i]).key@, key@),
            forall|i: int| hi <= i < bs@.len() ==> !text::before((#[trigger] bs@[i]).key@, key@),
        decreases hi - lo,
    {
        let mid: usize = lo + (hi - lo) / 2;
        if text::is_before(&bs[mid].key, key) {
            assert forall|i: int| 0 <= i < mid + 1 implies text::before(
                (#[trigger] bs@[i]).key@,
                key@,
            ) by {
                if i < mid {
                    text::lemma_before_order(bs@[i].key@, bs@[mid as int].key@, key@);
                }
            }
            lo = mid + 1;
        } else {
            assert forall|i: int| mid <= i < bs@.len() implies !text::before(
                (#[trigger] bs@[i]).key@,
                key@,
            ) by {
                if i > mid {
                    text::lemma_before_order(bs@[mid as int].key@, bs@[i].key@, key@);
                }
            }
            hi = mid;
        }
    }
    lo
}

proof fn lemma_members_of_other(files: Seq<Seq<char>>, f: Seq<char>, stem: Seq<char>)
    ensures
        stem_of(f) != Some(stem) ==> members_of(files.push(f), stem) == members_of(files, stem),
        stem_of(f) == Some(stem) ==> members_of(files.push(f), stem) == insert_member(
            members_of(files, stem),
            member_of(f),
        ),
{
    assert(files.push(f).drop_last() == files);
}

proof fn lemma_no_members(files: Seq<Seq<char>>, stem: Seq<char>)
    requires
        forall|k: int| 0 <= k < files.len() ==> stem_of(#[trigger] files[k]) != Some(stem),
    ensures
        members_of(files, stem) == Seq::<MemberFacts>::empty(),
    decreases files.len(),
{
    if files.len() > 0 {
        assert(files.last() == files[files.len() - 1]);
        assert forall|k: int| 0 <= k < files.drop_last().len() implies stem_of(
            #[trigger] files.drop_last()[k],
        ) != Some(stem) by {
            assert(files.drop_last()[k] == files[k]);
        }
        lemma_no_members(files.drop_last(), stem);
    }
}

/// Put one file into its bucket.
fn add_file(bs: &mut Vec<Bucket>, Ghost(files): Ghost<Seq<Seq<char>>>, f: &String)
    requires
        bucketed(files, old(bs)@),
    ensures
        bucketed(files.push(f@), final(bs)@),
{
    let ghost all = files.push(f@);
    let ghost before = bs@;
    proof {
        assert forall|i: int| 0 <= i < before.len() && Some(before[i].stem@) != stem_of(
            f@,
        ) implies (#[trigger] before[i]).holds(all) by {
            assert(before[i].holds(files));
            lemma_members_of_other(files, f@, before[i].stem@);
        }
    }
    let (stem, ext) = match path::file_name(f.as_str()) {
        Some(name) => split_name(name.as_str()),
        None => {
            assert(bucketed(all, bs@)) by {
                assert forall|k: int| 0 <= k < all.len() && stem_of(
                    #[trigger] all[k],
                ) is Some implies has_bucket(bs@, stem_of(all[k])->0) by {
                    assert(all[k] == files[k]);
                }
            }
            return;
        },
    };
    if stem.as_str().is_empty() {
        assert(bucketed(all, bs@)) by {
            assert forall|k: int| 0 <= k < all.len() && stem_of(
                #[trigger] all[k],
            ) is Some implies has_bucket(bs@, stem_of(all[k])->0) by {
                assert(all[k] == files[k]);
            }
        }
        return;
    }
    assert(stem_of(f@) == Some(stem@));
    let chars = text::to_chars(stem.as_str());
    let key = text::to_codes(&chars);
    let member = Member { path: f.clone(), role: role_for(&ext), ext };
    assert(member@ == member_of(f@));
    let member_key = path::sort_key(f.as_str());
    let at = find_bucket(bs, &key);
    let ghost new_stem = stem@;
    if at < bs.len() && !text::is_before(&key, &bs[at].key) {
        proof {
            text::lemma_before_total(key@, bs@[at as int].key@);
            assert(bs@[at as int].holds(files));
            text::lemma_codes_injective(new_stem, bs@[at as int].stem@);
            lemma_members_of_other(files, f@, new_stem);
        }
        bs[at].add(member, member_key);
        proof {
            assert(bs@[at as int].holds(all));
            assert forall|i: int| 0 <= i < bs@.len() implies (#[trigger] bs@[i]).holds(all) by {
                if i != at {
                    assert(bs@[i] == before[i]);
                    assert(before[i].holds(files));
                    if before[i].stem@ == new_stem {
                        text::lemma_before_order(key@, key@, key@);
                        if i < at {
                            assert(text::before(before[i].key@, before[at as int].key@));
                        } else {
                            assert(text::before(before[at as int].key@, before[i].key@));
                        }
                    }
                }
            }
            assert forall|i: int, j: int| 0 <= i < j < bs@.len() implies text::before(
                (#[trigger] bs@[i]).key@,
                (#[trigger] bs@[j]).key@,
            ) by {
                assert(text::before(before[i].key@, before[j].key@));
            }
            assert forall|k: int| 0 <= k < all.len() && stem_of(#[trigger] all[k]) is Some
                implies has_bucket(bs@, stem_of(all[k])->0) by {
                if k < files.len() {
                    assert(all[k] == files[k]);
                    let i = choose|i: int|
                        0 <= i < before.len() && (#[trigger] before[i]).stem@ == stem_of(
                            files[k],
                        )->0;
                    assert(bs@[i].stem@ == before[i].stem@);
                } else {
                    assert(bs@[at as int].stem@ == new_stem);
                }
            }
        }
    } else {
        let mut fresh = Bucket { key, stem, members: Vec::new(), keys: Vec::new() };
        proof {
            assert forall|i: int| 0 <= i < before.len() implies (#[trigger] before[i]).stem@
                != new_stem by {
                text::lemma_before_order(fresh.key@, fresh.key@, fresh.key@);
                assert(before[i].holds(files));
                if i == at {
                } else if i > at {
                    assert(text::before(before[at as int].key@, before[i].key@));
                    text::lemma_before_order(fresh.key@, before[at as int].key@, before[i].key@);
                }
            }
            assert forall|k: int| 0 <= k < files.len() implies stem_of(#[trigger] files[k])
                != Some(new_stem) by {
                if stem_of(files[k]) == Some(new_stem) {
                    assert(has_bucket(before, new_stem));
                }
            }
            lemma_no_members(files, new_stem);
            lemma_members_of_other(files, f@, new_stem);
            assert(member_facts(fresh.members@) == Seq::<MemberFacts>::empty());
        }
        fresh.add(member, member_key);
        assert(fresh.holds(all));
        let ghost added = fresh;
        bs.insert(at, fresh);
        proof {
            assert(bs@ == before.insert(at as int, added));
            assert forall|i: int| 0 <= i < bs@.len() implies (#[trigger] bs@[i]).holds(all) by {
                if i < at {
                    assert(bs@[i] == before[i]);
                } else if i > at {
                    assert(bs@[i] == before[i - 1]);
                }
            }
            assert forall|i: int, j: int| 0 <= i < j < bs@.len() implies text::before(
                (#[trigger] bs@[i]).key@,
                (#[trigger] bs@[j]).key@,
            ) by {
                let a = if i > at {
                    i - 1
                } else {
                    i
                };
                let b = if j > at {
                    j - 1
                } else {
                    j
                };
                if i != at {
                    assert(bs@[i] == before[a]);
                }
                if j != at {
                    assert(bs@[j] == before[b]);
                }
                if i != at && j != at {
                    assert(text::before(before[a].key@, before[b].key@));
                } else if i == at {
                    if j == at + 1 {
                    } else {
                        assert(text::before(before[at as int].key@, before[b].key@));
                        text::lemma_before_order(
                            added.key@,
                            before[at as int].key@,
                            before[b].key@,
                        );
                    }
                }
            }
            assert forall|k: int| 0 <= k < all.len() && stem_of(#[trigger] all[k]) is Some
                implies has_bucket(bs@, stem_of(all[k])->0) by {
                if k < files.len() {
                    assert(all[k] == files[k]);
                    let i = choose|i: int|
                        0 <= i < before.len() && (#[trigger] before[i]).stem@ == stem_of(
                            files[k],
                        )->0;
                    if i < at {
                        assert(bs@[i] == before[i]);
                    } else {
                        assert(bs@[i + 1] == before[i]);
                    }
                } else {
                    assert(bs@[at as int] == added);
                }
            }
        }
    }
}

/// Some member can be displayed.
fn any_displayable(ms: &Vec<Member>) -> (r: bool)
    ensures
        r == displayable(member_facts(ms@)),
{
    for i in 0..ms.len()
        invariant
            forall|k: int| 0 <= k < i ==> ms@[k].role != Role::Displayable,
    {
        if ms[i].role == Role::Displayable {
            assert(member_facts(ms@)[i as int].role == Role::Displayable);
            return true;
        }
    }
    false
}

/// `gs` are the groups that the displayable ones among the first buckets make.
spec fn kept(
    dir: Seq<char>,
    files: Seq<Seq<char>>,
    bs: Seq<Bucket>,
    gs: Seq<GroupFacts>,
) -> bool {
    &&& forall|i: int|
        0 <= i < gs.len() ==> {
            &&& (#[trigger] gs[i]).dir == dir
            &&& gs[i].members == members_of(files, gs[i].stem)
            &&& displayable(gs[i].members)
            &&& has_bucket(bs, gs[i].stem)
        }
    &&& forall|i: int, j: int|
        0 <= i < j < gs.len() ==> text::before(
            text::codes(#[trigger] gs[i].stem),
            text::codes(#[trigger] gs[j].stem),
        )
    &&& forall|k: int|
        0 <= k < bs.len() && displayable(members_of(files, (#[trigger] bs[k]).stem@)) ==> has_stem(
            gs,
            bs[k].stem@,
        )
}

proof fn lemma_kept(
    dir: Seq<char>,
    files: Seq<Seq<char>>,
    bs: Seq<Bucket>,
    n: int,
    gs: Seq<GroupFacts>,
    new: Seq<GroupFacts>,
)
    requires
        0 <= n < bs.len(),
        bucketed(files, bs),
        kept(dir, files, bs.take(n), gs),
        displayable(member_facts(bs[n].members@)) ==> new == gs.push(
            GroupFacts { dir, stem: bs[n].stem@, members: member_facts(bs[n].members@) },
        ),
        !displayable(member_facts(bs[n].members@)) ==> new == gs,
    ensures
        kept(dir, files, bs.take(n + 1), new),
{
    let pre = bs.take(n);
    let post = bs.take(n + 1);
    assert(bs[n].holds(files));
    assert(post[n] == bs[n]);
    assert forall|i: int| 0 <= i < new.len() implies has_bucket(post, (#[trigger] new[i]).stem) by {
        if i < gs.len() {
            assert(new[i] == gs[i]);
            let k = choose|k: int| 0 <= k < pre.len() && (#[trigger] pre[k]).stem@ == gs[i].stem;
            assert(post[k] == pre[k]);
        }
    }
    assert forall|i: int, j: int| 0 <= i < j < new.len() implies text::before(
        text::codes(#[trigger] new[i].stem),
        text::codes(#[trigger] new[j].stem),
    ) by {
        assert(new[i] == gs[i]);
        if j < gs.len() {
            assert(new[j] == gs[j]);
        } else {
            let k = choose|k: int| 0 <= k < pre.len() && (#[trigger] pre[k]).stem@ == gs[i].stem;
            assert(pre[k] == bs[k]);
            assert(bs[k].holds(files));
            assert(text::before(bs[k].key@, bs[n].key@));
        }
    }
    assert forall|k: int|
        0 <= k < post.len() && displayable(
            members_of(files, (#[trigger] post[k]).stem@),
        ) implies has_stem(new, post[k].stem@) by {
        if k < n {
            assert(pre[k] == post[k]);
            let i = choose|i: int| 0 <= i < gs.len() && (#[trigger] gs[i]).stem == pre[k].stem@;
            assert(new[i] == gs[i]);
        } else {
            assert(new[gs.len() as int].stem == bs[n].stem@);
        }
    }
}

proof fn lemma_some_file(files: Seq<Seq<char>>, stem: Seq<char>)
    requires
        members_of(files, stem).len() > 0,
    ensures
        exists|k: int| 0 <= k < files.len() && stem_of(#[trigger] files[k]) == Some(stem),
{
    if forall|k: int| 0 <= k < files.len() ==> stem_of(#[trigger] files[k]) != Some(stem) {
        lemma_no_members(files, stem);
    }
}

proof fn lemma_kept_is_grouped(
    dir: Seq<char>,
    files: Seq<Seq<char>>,
    bs: Seq<Bucket>,
    gs: Seq<GroupFacts>,
)
    requires
        bucketed(files, bs),
        kept(dir, files, bs, gs),
    ensures
        grouped(dir, files, gs),
{
    assert forall|stem: Seq<char>| displayable(#[trigger] members_of(files, stem)) implies has_stem(
        gs,
        stem,
    ) by {
        lemma_some_file(files, stem);
        let k = choose|k: int| 0 <= k < files.len() && stem_of(#[trigger] files[k]) == Some(stem);
        assert(has_bucket(bs, stem));
        let i = choose|i: int| 0 <= i < bs.len() && (#[trigger] bs[i]).stem@ == stem;
        assert(has_stem(gs, bs[i].stem@));
    }
}

/// Group the files of a single directory by stem.
///
/// Groups containing no displayable file are dropped: an orphaned `.pp3` is not something
/// to navigate to.
///
/// Purely string work: no file is opened or stat'ed here, which is what keeps a scan
/// proportional to the number of directories rather than to the number of files.
pub fn group_files(dir: &str, files: &Vec<String>) -> (groups: Vec<Group>)
    ensures
        grouped(dir@, strings(files@), group_facts(groups@)),
{
    let mut bs: Vec<Bucket> = Vec::new();
    assert(strings(files@).take(0) == Seq::<Seq<char>>::empty());
    for i in 0..files.len()
        invariant
            bucketed(strings(files@).take(i as int), bs@),
    {
        add_file(&mut bs, Ghost(strings(files@).take(i as int)), &files[i]);
        assert(strings(files@).take(i + 1) == strings(files@).take(i as int).push(
            files@[i as int]@,
        ));
    }
    assert(strings(files@).take(files@.len() as int) == strings(files@));
    let ghost all = strings(files@);
    let ghost buckets = bs@;
    let mut groups: Vec<Group> = Vec::new();
    let mut n: Ghost<int> = Ghost(0);
    for b in it: bs
        invariant
            it.seq() == buckets,
            n@ == it.index(),
            bucketed(all, buckets),
            kept(dir@, all, buckets.take(n@), group_facts(groups@)),
    {
        let ghost bucket = buckets[n@];
        assert(b == bucket);
        assert(bucket.holds(all));
        let ghost before = groups@;
        if any_displayable(&b.members) {
            groups.push(Group { dir: text::copy(dir), stem: b.stem, members: b.members });
            assert(group_facts(groups@) == group_facts(before).push(groups@.last()@));
        }
        proof {
            lemma_kept(dir@, all, buckets, n@, group_facts(before), group_facts(groups@));
            n@ = n@ + 1;
        }
    }
    proof {
        assert(buckets.take(n@) == buckets);
        lemma_kept_is_grouped(dir@, all, buckets, group_facts(groups@));
    }
    groups
}

/// The number of files that group under `stem`.
pub open spec fn count_of(files: Seq<Seq<char>>, stem: Seq<char>) -> nat
    decreases files.len(),
{
    if files.len() == 0 {
        0
    } else {
        count_of(files.drop_last(), stem) + if stem_of(files.last()) == Some(stem) {
            1nat
        } else {
            0nat
        }
    }
}

proof fn lemma_insert_keeps(ms: Seq<MemberFacts>, m: MemberFacts)
    ensures
        insert_member(ms, m).len() == ms.len() + 1,
        insert_member(ms, m).to_multiset() == ms.to_multiset().insert(m),
    decreases ms.len(),
{
    broadcast use vstd::seq_lib::group_to_multiset_ensures;

    if ms.len() > 0 && path_before(m.path, ms.last().path) {
        let init = ms.drop_last();
        lemma_insert_keeps(init, m);
        assert(ms == init.push(ms.last()));
        assert(insert_member(init, m).push(ms.last()).to_multiset() == insert_member(
            init,
            m,
        ).to_multiset().insert(ms.last()));
        assert(init.push(ms.last()).to_multiset() == init.to_multiset().insert(ms.last()));
        assert(insert_member(ms, m).to_multiset() =~= ms.to_multiset().insert(m));
    } else {
        assert(ms.push(m).to_multiset() == ms.to_multiset().insert(m));
    }
}

/// The members of a group are exactly the files of its stem, each as often as it was listed:
/// deleting a group takes all of them and nothing else.
pub proof fn law_members_are_the_files_of_the_stem(files: Seq<Seq<char>>, stem: Seq<char>)
    ensures
        members_of(files, stem).len() == count_of(files, stem),
        forall|k: int|
            0 <= k < files.len() && stem_of(#[trigger] files[k]) == Some(stem) ==> members_of(
                files,
                stem,
            ).to_multiset().count(member_of(files[k])) > 0,
        forall|m: MemberFacts| #[trigger]
            members_of(files, stem).to_multiset().count(m) > 0 ==> exists|k: int|
                0 <= k < files.len() && stem_of(#[trigger] files[k]) == Some(stem) && m
                    == member_of(files[k]),
    decreases files.len(),
{
    broadcast use vstd::seq_lib::group_to_multiset_ensures;

    if files.len() > 0 {
        let init = files.drop_last();
        let ms = members_of(init, stem);
        law_members_are_the_files_of_the_stem(init, stem);
        if stem_of(files.last()) == Some(stem) {
            lemma_insert_keeps(ms, member_of(files.last()));
        }
        assert forall|k: int|
            0 <= k < files.len() && stem_of(#[trigger] files[k]) == Some(stem) implies members_of(
            files,
            stem,
        ).to_multiset().count(member_of(files[k])) > 0 by {
            if k < init.len() {
                assert(init[k] == files[k]);
            }
        }
        assert forall|m: MemberFacts| #[trigger]
            members_of(files, stem).to_multiset().count(m) > 0 implies exists|k: int|
            0 <= k < files.len() && stem_of(#[trigger] files[k]) == Some(stem) && m == member_of(
                files[k],
            ) by {
            if ms.to_multiset().count(m) > 0 {
                let k = choose|k: int|
                    0 <= k < init.len() && stem_of(#[trigger] init[k]) == Some(stem) && m
                        == member_of(init[k]);
                assert(files[k] == init[k]);
            } else {
                assert(files[files.len() - 1] == files.last());
            }
        }
    } else {
        assert(Seq::<MemberFacts>::empty().to_multiset().count(member_of(Seq::empty())) == 0);
    }
}

proof fn lemma_insert_sorted(ms: Seq<MemberFacts>, m: MemberFacts)
    requires
        forall|i: int, j: int|
            0 <= i < j < ms.len() ==> !path_before(
                (#[trigger] ms[j]).path,
                (#[trigger] ms[i]).path,
            ),
    ensures
        ({
            let r = insert_member(ms, m);
            forall|i: int, j: int|
                0 <= i < j < r.len() ==> !path_before(
                    (#[trigger] r[j]).path,
                    (#[trigger] r[i]).path,
                )
        }),
        forall|i: int|
            0 <= i < insert_member(ms, m).len() ==> #[trigger] insert_member(ms, m)[i] == m
                || ms.contains(insert_member(ms, m)[i]),
    decreases ms.len(),
{
    let r = insert_member(ms, m);
    if ms.len() > 0 && path_before(m.path, ms.last().path) {
        let init = ms.drop_last();
        lemma_insert_sorted(init, m);
        let s = insert_member(init, m);
        assert forall|i: int| 0 <= i < r.len() implies #[trigger] r[i] == m || ms.contains(
            r[i],
        ) by {
            if i < s.len() {
                assert(r[i] == s[i]);
                if s[i] != m {
                    let k = choose|k: int| 0 <= k < init.len() && init[k] == s[i];
                    assert(ms[k] == s[i]);
                }
            } else {
                assert(ms[ms.len() - 1] == r[i]);
            }
        }
        assert forall|i: int, j: int| 0 <= i < j < r.len() implies !path_before(
            (#[trigger] r[j]).path,
            (#[trigger] r[i]).path,
        ) by {
            if j < s.len() {
                assert(r[i] == s[i] && r[j] == s[j]);
            } else {
                assert(r[j] == ms.last());
                assert(r[i] == s[i]);
                if s[i] == m {
                    text::lemma_before_order(
                        path::path_key(m.path),
                        path::path_key(ms.last().path),
                        path::path_key(m.path),
                    );
                } else {
                    let k = choose|k: int| 0 <= k < init.len() && init[k] == s[i];
                    assert(ms[k] == s[i]);
                    assert(ms[ms.len() - 1] == ms.last());
                }
            }
        }
    } else {
        assert forall|i: int| 0 <= i < r.len() implies #[trigger] r[i] == m || ms.contains(
            r[i],
        ) by {
            if i < ms.len() {
                assert(ms[i] == r[i]);
            }
        }
        assert forall|i: int, j: int| 0 <= i < j < r.len() implies !path_before(
            (#[trigger] r[j]).path,
            (#[trigger] r[i]).path,
        ) by {
            assert(r[i] == ms[i]);
            if j < ms.len() {
                assert(r[j] == ms[j]);
            } else if path_before(m.path, ms[i].path) {
                let last = ms[ms.len() - 1];
                if i < ms.len() - 1 {
                    text::lemma_before_order(
                        path::path_key(m.path),
                        path::path_key(ms[i].path),
                        path::path_key(last.path),
                    );
                }
            }
        }
    }
}

/// The members of a group stand in path order.
pub proof fn law_members_in_path_order(files: Seq<Seq<char>>, stem: Seq<char>)
    ensures
        ({
            let ms = members_of(files, stem);
            forall|i: int, j: int|
                0 <= i < j < ms.len() ==> !path_before(
                    (#[trigger] ms[j]).path,
                    (#[trigger] ms[i]).path,
                )
        }),
    decreases files.len(),
{
    if files.len() > 0 {
        law_members_in_path_order(files.drop_last(), stem);
        lemma_insert_sorted(members_of(files.drop_last(), stem), member_of(files.last()));
    }
}

proof fn lemma_same_stem(
    dir: Seq<char>,
    files: Seq<Seq<char>>,
    a: Seq<GroupFacts>,
    b: Seq<GroupFacts>,
    i: int,
)
    requires
        grouped(dir, files, a),
        grouped(dir, files, b),
        0 <= i < a.len(),
    ensures
        i < b.len(),
        a[i] == b[i],
    decreases i,
{
    assert forall|k: int| 0 <= k < i implies k < b.len() && #[trigger] a[k] == b[k] by {
        lemma_same_stem(dir, files, a, b, k);
    }
    assert(displayable(members_of(files, a[i].stem)));
    assert(has_stem(b, a[i].stem));
    let j = choose|j: int| 0 <= j < b.len() && (#[trigger] b[j]).stem == a[i].stem;
    let key = text::codes(a[i].stem);
    text::lemma_before_order(key, key, key);
    if j < i {
        assert(a[j] == b[j]);
        assert(text::before(text::codes(a[j].stem), text::codes(a[i].stem)));
    }
    if j > i {
        assert(displayable(members_of(files, b[i].stem)));
        assert(has_stem(a, b[i].stem));
        let k = choose|k: int| 0 <= k < a.len() && (#[trigger] a[k]).stem == b[i].stem;
        assert(text::before(text::codes(b[i].stem), text::codes(b[j].stem)));
        if k < i {
            assert(a[k] == b[k]);
            assert(text::before(text::codes(b[k].stem), text::codes(b[i].stem)));
            text::lemma_before_order(
                text::codes(b[i].stem),
                text::codes(b[i].stem),
                text::codes(b[i].stem),
            );
        } else if k > i {
            assert(text::before(text::codes(a[i].stem), text::codes(a[k].stem)));
            text::lemma_before_order(key, text::codes(b[i].stem), key);
        }
    }
    assert(a[i].members == b[i].members);
    assert(a[i] =~= b[i]);
}

/// The files of a directory make one list of groups and no other, so a scan is deterministic.
pub proof fn law_grouping_is_determined(
    dir: Seq<char>,
    files: Seq<Seq<char>>,
    a: Seq<GroupFacts>,
    b: Seq<GroupFacts>,
)
    requires
        grouped(dir, files, a),
        grouped(dir, files, b),
    ensures
        a == b,
{
    assert forall|i: int| 0 <= i < a.len() implies i < b.len() && #[trigger] a[i] == b[i] by {
        lemma_same_stem(dir, files, a, b, i);
    }
    if b.len() > a.len() {
        lemma_same_stem(dir, files, b, a, a.len() as int);
    }
    if a.len() > b.len() {
        lemma_same_stem(dir, files, a, b, b.len() as int);
    }
    assert(a =~= b);
}

/// The displayable member with the most preferred extension; of equals, the first.
pub open spec fn best_member(ms: Seq<MemberFacts>) -> Option<MemberFacts>
    decreases ms.len(),
{
    if ms.len() == 0 {
        None
    } else {
        let best = best_member(ms.drop_last());
        let m = ms.last();
        if m.role == Role::Displayable && (best is None || preference(m.ext) < preference(
            best->0.ext,
        )) {
            Some(m)
        } else {
            best
        }
    }
}

/// The group holds a file with the given extension.
pub open spec fn has_ext(ms: Seq<MemberFacts>, ext: Seq<char>) -> bool {
    exists|i: int| 0 <= i < ms.len() && (#[trigger] ms[i]).ext == ext
}

impl GroupFacts {
    /// The file to decode for display.
    pub open spec fn display_path(self) -> Option<Seq<char>> {
        match best_member(self.members) {
            Some(m) => Some(m.path),
            None => None,
        }
    }

    /// The group holds a RAW file.
    pub open spec fn has_raw(self) -> bool {
        has_ext(self.members, "arw"@)
    }

    /// The group holds a JPEG.
    pub open spec fn has_jpeg(self) -> bool {
        has_ext(self.members, "jpg"@) || has_ext(self.members, "jpeg"@)
    }

    /// What the group holds, in short.
    pub open spec fn kind(self) -> Seq<char> {
        if self.has_jpeg() && self.has_raw() {
            "JPG+ARW"@
        } else if self.has_jpeg() {
            "JPG"@
        } else if self.has_raw() {
            "ARW"@
        } else {
            "-"@
        }
    }

    /// Display comes from a RAW's embedded preview.
    pub open spec fn is_raw_only(self) -> bool {
        match self.display_path() {
            Some(p) => match path::spec_extension(p) {
                Some(e) => e.len() == 3 && lower(e[0]) == 'a' && lower(e[1]) == 'r' && lower(e[2])
                    == 'w',
                None => false,
            },
            None => false,
        }
    }
}

impl Group {
    /// The file to decode for display, preferring JPEG over RAW because a sidecar JPEG
    /// needs no preview extraction. Returns `None` for a sidecar-only group.
    pub fn display_path(&self) -> (r: Option<&str>)
        ensures
            match r {
                Some(p) => self@.display_path() == Some(p@),
                None => self@.display_path() is None,
            },
    {
        let mut best: Option<usize> = None;
        for i in 0..self.members.len()
            invariant
                match best {
                    Some(b) => b < self.members@.len() && best_member(
                        self@.members.take(i as int),
                    ) == Some(self.members@[b as int]@),
                    None => best_member(self@.members.take(i as int)) is None,
                },
        {
            let ghost head = self@.members.take(i + 1);
            assert(head.drop_last() == self@.members.take(i as int));
            assert(head.last() == self.members@[i as int]@);
            if self.members[i].role == Role::Displayable {
                let better = match best {
                    Some(b) => rank_of(&self.members[i].ext) < rank_of(&self.members[b].ext),
                    None => true,
                };
                if better {
                    best = Some(i);
                }
            }
        }
        assert(self@.members.take(self.members@.len() as int) == self@.members);
        match best {
            Some(b) => Some(self.members[b].path.as_str()),
            None => None,
        }
    }

    /// Every file to remove when this group is deleted.
    pub fn all_paths(&self) -> (r: Vec<&str>)
        ensures
            r@.len() == self.members@.len(),
            forall|i: int| 0 <= i < r@.len() ==> (#[trigger] r@[i])@ == self.members@[i].path@,
    {
        let mut r: Vec<&str> = Vec::new();
        for i in 0..self.members.len()
            invariant
                r@.len() == i,
                forall|k: int| 0 <= k < i ==> (#[trigger] r@[k])@ == self.members@[k].path@,
        {
            r.push(self.members[i].path.as_str());
        }
        r
    }

    /// True when the group has a RAW but no sidecar JPEG, so display comes from the
    /// embedded preview.
    pub fn is_raw_only(&self) -> (r: bool)
        ensures
            r == self@.is_raw_only(),
    {
        match self.display_path() {
            Some(p) => match path::extension(p) {
                Some(e) => e.len() == 3 && lower_ascii(e[0]) == 'a' && lower_ascii(e[1]) == 'r'
                    && lower_ascii(e[2]) == 'w',
                None => false,
            },
            None => false,
        }
    }

    /// True when the group contains a file with the given extension.
    fn has_ext(&self, ext: &str) -> (r: bool)
        ensures
            r == has_ext(self@.members, ext@),
    {
        for i in 0..self.members.len()
            invariant
                forall|k: int| 0 <= k < i ==> (#[trigger] self.members@[k]).ext@ != ext@,
        {
            if same(&self.members[i].ext, ext) {
                assert(self@.members[i as int].ext == ext@);
                return true;
            }
        }
        false
    }

    /// True when the group contains a RAW file at all.
    pub fn has_raw(&self) -> (r: bool)
        ensures
            r == self@.has_raw(),
    {
        self.has_ext("arw")
    }

    /// True when the group contains a JPEG.
    pub fn has_jpeg(&self) -> (r: bool)
        ensures
            r == self@.has_jpeg(),
    {
        self.has_ext("jpg") || self.has_ext("jpeg")
    }

    /// Short label for what the group holds, e.g. `JPG+ARW`.
    ///
    /// This is what tells the user at a glance whether deleting the row will also take a
    /// RAW with it.
    pub fn kind(&self) -> (r: &'static str)
        ensures
            r@ == self@.kind(),
    {
        match (self.has_jpeg(), self.has_raw()) {
            (true, true) => "JPG+ARW",
            (true, false) => "JPG",
            (false, true) => "ARW",
            (false, false) => "-",
        }
    }

    /// Every file path in the group, for stat'ing in the background.
    pub fn member_paths(&self) -> (r: Vec<String>)
        ensures
            strings(r@) == Seq::new(self@.members.len(), |i: int| self@.members[i].path),
    {
        let mut r: Vec<String> = Vec::new();
        for i in 0..self.members.len()
            invariant
                r@.len() == i,
                forall|k: int| 0 <= k < i ==> (#[trigger] r@[k])@ == self.members@[k].path@,
        {
            r.push(self.members[i].path.clone());
        }
        assert(strings(r@) == Seq::new(self@.members.len(), |i: int| self@.members[i].path));
        r
    }
}

/// A group that grouping makes can always be shown.
pub proof fn law_groups_can_be_shown(
    dir: Seq<char>,
    files: Seq<Seq<char>>,
    groups: Seq<GroupFacts>,
    i: int,
)
    requires
        grouped(dir, files, groups),
        0 <= i < groups.len(),
    ensures
        groups[i].display_path() is Some,
{
    let ms = groups[i].members;
    let k = choose|k: int| 0 <= k < ms.len() && (#[trigger] ms[k]).role == Role::Displayable;
    lemma_best_exists(ms, k);
}

proof fn lemma_best_exists(ms: Seq<MemberFacts>, k: int)
    requires
        0 <= k < ms.len(),
        ms[k].role == Role::Displayable,
    ensures
        best_member(ms) is Some,
    decreases ms.len(),
{
    if k < ms.len() - 1 {
        lemma_best_exists(ms.drop_last(), k);
    }
}

/// A point in time: whole seconds since 1970, and nanoseconds on top.
#[derive(Clone, Copy, Debug, PartialEq, Eq, Structural)]
pub struct WallTime {
    pub secs: i64,
    pub nanos: u32,
}

impl WallTime {
    /// `self` is earlier than `other`.
    pub open spec fn earlier(self, other: WallTime) -> bool {
        self.secs < other.secs || (self.secs == other.secs && self.nanos < other.nanos)
    }

    fn is_earlier(self, other: WallTime) -> (r: bool)
        ensures
            r == self.earlier(other),
    {
        self.secs < other.secs || (self.secs == other.secs && self.nanos < other.nanos)
    }
}

/// Size and timestamp for one file.
///
/// Deliberately *not* part of [`Member`]. Filling these in requires one `stat` per file,
/// and on a cold cache over a large library that dominates startup entirely. They feed two
/// display columns and a confirmation message, none of which is needed to show the first
/// photo, so they are gathered off the startup path -- see [`MetaStore`].
#[derive(Clone, Copy, Debug, PartialEq, Eq, Structural)]
pub struct FileMeta {
    /// Zero if the file vanished before it could be stat'ed.
    pub size: u64,
    /// Modification time. For camera files this is effectively capture time.
    pub modified: Option<WallTime>,
}

impl Default for FileMeta {
    fn default() -> (m: Self)
        ensures
            m == (FileMeta { size: 0, modified: None }),
    {
        FileMeta { size: 0, modified: None }
    }
}

/// Sizes and timestamps, gathered in the background after the window is up.
///
/// Keyed by path rather than index deliberately: deleting a group shifts every later
/// index, and stale sizes attached to the wrong rows would be worse than absent ones.
/// Until a path has been stat'ed its row simply shows `-`.
pub struct MetaStore {
    map: vstd::hash_map::StringHashMap<FileMeta>,
}

impl View for MetaStore {
    type V = Map<Seq<char>, FileMeta>;

    /// What is known of each file, by the canonical form of its path.
    closed spec fn view(&self) -> Map<Seq<char>, FileMeta> {
        self.map@
    }
}

/// What is known of the file at `p`.
pub open spec fn meta_of(known: Map<Seq<char>, FileMeta>, p: Seq<char>) -> Option<FileMeta> {
    let key = path::canonical(p);
    if known.contains_key(key) {
        Some(known[key])
    } else {
        None
    }
}

/// `known` after a batch of files was stat'ed; the last word on a path counts.
pub open spec fn published(
    known: Map<Seq<char>, FileMeta>,
    batch: Seq<(String, FileMeta)>,
) -> Map<Seq<char>, FileMeta>
    decreases batch.len(),
{
    if batch.len() == 0 {
        known
    } else {
        published(known, batch.drop_last()).insert(
            path::canonical(batch.last().0@),
            batch.last().1,
        )
    }
}

/// The bytes of those members whose size is known.
pub open spec fn known_bytes(known: Map<Seq<char>, FileMeta>, ms: Seq<MemberFacts>) -> nat
    decreases ms.len(),
{
    if ms.len() == 0 {
        0
    } else {
        known_bytes(known, ms.drop_last()) + match meta_of(known, ms.last().path) {
            Some(m) => m.size as nat,
            None => 0,
        }
    }
}

/// There are members, and the size of each is known.
pub open spec fn all_known(known: Map<Seq<char>, FileMeta>, ms: Seq<MemberFacts>) -> bool {
    &&& ms.len() > 0
    &&& forall|i: int| 0 <= i < ms.len() ==> meta_of(known, (#[trigger] ms[i]).path) is Some
}

/// When a file was modified, as far as it is known.
pub open spec fn known_time(known: Map<Seq<char>, FileMeta>, p: Seq<char>) -> Option<WallTime> {
    match meta_of(known, p) {
        Some(m) => m.modified,
        None => None,
    }
}

/// `t` is the earliest time at which one of `ms` was modified, as far as it is known.
pub open spec fn earliest(
    known: Map<Seq<char>, FileMeta>,
    ms: Seq<MemberFacts>,
    t: Option<WallTime>,
) -> bool {
    match t {
        Some(t) => {
            &&& exists|i: int|
                0 <= i < ms.len() && known_time(known, (#[trigger] ms[i]).path) == Some(t)
            &&& forall|i: int|
                0 <= i < ms.len() ==> (known_time(known, (#[trigger] ms[i]).path) matches Some(u)
                    ==> !u.earlier(t))
        },
        None => forall|i: int|
            0 <= i < ms.len() ==> known_time(known, (#[trigger] ms[i]).path) is None,
    }
}

impl MetaStore {
    pub fn new() -> (s: Self)
        ensures
            s@ == Map::<Seq<char>, FileMeta>::empty(),
    {
        MetaStore { map: vstd::hash_map::StringHashMap::new() }
    }

    /// Take in a batch of stat'ed files.
    pub fn publish(&mut self, batch: &Vec<(String, FileMeta)>)
        ensures
            final(self)@ == published(old(self)@, batch@),
    {
        let ghost before = self@;
        for i in 0..batch.len()
            invariant
                self@ == published(before, batch@.take(i as int)),
        {
            assert(batch@.take(i + 1).drop_last() == batch@.take(i as int));
            self.map.insert(path::canonical_text(batch[i].0.as_str()), batch[i].1);
        }
        assert(batch@.take(batch@.len() as int) == batch@);
    }

    pub fn get(&self, p: &str) -> (r: Option<FileMeta>)
        ensures
            r == meta_of(self@, p@),
    {
        let key = path::canonical_text(p);
        match self.map.get(key.as_str()) {
            Some(m) => Some(*m),
            None => None,
        }
    }

    /// Total bytes across a group, or `None` until its files have been stat'ed.
    pub fn group_bytes(&self, group: &Group) -> (r: Option<u64>)
        requires
            known_bytes(self@, group@.members) <= u64::MAX,
        ensures
            match r {
                Some(n) => all_known(self@, group@.members) && n == known_bytes(
                    self@,
                    group@.members,
                ),
                None => !all_known(self@, group@.members),
            },
    {
        let mut total: u64 = 0;
        let ghost ms = group@.members;
        for i in 0..group.members.len()
            invariant
                ms == group@.members,
                known_bytes(self@, ms) <= u64::MAX,
                total == known_bytes(self@, ms.take(i as int)),
                forall|k: int| 0 <= k < i ==> meta_of(self@, (#[trigger] ms[k]).path) is Some,
        {
            let ghost head = ms.take(i + 1);
            assert(head.drop_last() == ms.take(i as int));
            assert(ms[i as int].path == group.members@[i as int].path@);
            proof {
                lemma_known_bytes_grow(self@, ms, i + 1);
            }
            match self.get(group.members[i].path.as_str()) {
                Some(m) => {
                    total = total + m.size;
                },
                None => {
                    return None;
                },
            }
        }
        assert(ms.take(ms.len() as int) == ms);
        if group.members.len() > 0 {
            Some(total)
        } else {
            None
        }
    }

    /// True when the sizes known of a group's files add up to a count that fits.
    pub fn bytes_fit(&self, group: &Group) -> (r: bool)
        ensures
            r == (known_bytes(self@, group@.members) <= u64::MAX),
    {
        let mut total: u64 = 0;
        let ghost ms = group@.members;
        for i in 0..group.members.len()
            invariant
                ms == group@.members,
                total == known_bytes(self@, ms.take(i as int)),
        {
            let ghost head = ms.take(i + 1);
            assert(head.drop_last() == ms.take(i as int));
            assert(ms[i as int].path == group.members@[i as int].path@);
            proof {
                lemma_known_bytes_grow(self@, ms, i + 1);
            }
            if let Some(m) = self.get(group.members[i].path.as_str()) {
                match total.checked_add(m.size) {
                    Some(t) => {
                        total = t;
                    },
                    None => {
                        return false;
                    },
                }
            }
        }
        assert(ms.take(ms.len() as int) == ms);
        true
    }

    /// Earliest modification time in a group, used as the capture time.
    pub fn group_modified(&self, group: &Group) -> (r: Option<WallTime>)
        ensures
            earliest(self@, group@.members, r),
    {
        let mut first: Option<WallTime> = None;
        let ghost ms = group@.members;
        for i in 0..group.members.len()
            invariant
                ms == group@.members,
                match first {
                    Some(t) => {
                        &&& exists|k: int|
                            0 <= k < i && known_time(self@, (#[trigger] ms[k]).path) == Some(t)
                        &&& forall|k: int|
                            0 <= k < i ==> (known_time(self@, (#[trigger] ms[k]).path) matches Some(
                                u,
                            ) ==> !u.earlier(t))
                    },
                    None => forall|k: int|
                        0 <= k < i ==> known_time(self@, (#[trigger] ms[k]).path) is None,
                },
        {
            assert(ms[i as int].path == group.members@[i as int].path@);
            if let Some(m) = self.get(group.members[i].path.as_str()) {
                if let Some(t) = m.modified {
                    let replace = match first {
                        Some(u) => t.is_earlier(u),
                        None => true,
                    };
                    if replace {
                        first = Some(t);
                    }
                }
            }
        }
        first
    }

    pub fn len(&self) -> (n: usize)
        ensures
            n == self@.len(),
    {
        self.map.len()
    }

    pub fn is_empty(&self) -> (r: bool)
        ensures
            r == (self@.len() == 0),
    {
        self.map.len() == 0
    }
}

impl Default for MetaStore {
    fn default() -> (s: Self)
        ensures
            s@ == Map::<Seq<char>, FileMeta>::empty(),
    {
        MetaStore::new()
    }
}

proof fn lemma_known_bytes_grow(known: Map<Seq<char>, FileMeta>, ms: Seq<MemberFacts>, n: int)
    requires
        0 <= n <= ms.len(),
    ensures
        known_bytes(known, ms.take(n)) <= known_bytes(known, ms),
    decreases ms.len() - n,
{
    if n < ms.len() {
        lemma_known_bytes_grow(known, ms, n + 1);
        assert(ms.take(n + 1).drop_last() == ms.take(n));
    } else {
        assert(ms.take(n) == ms);
    }
}

/// A directory that contains at least one group, plus its groups.
#[derive(Debug)]
pub struct DirNode {
    pub path: String,
    pub groups: Vec<Group>,
}

/// The mathematical content of a [`DirNode`].
#[verifier::ext_equal]
pub struct DirFacts {
    pub path: Seq<char>,
    pub groups: Seq<GroupFacts>,
}

impl View for DirNode {
    type V = DirFacts;

    open spec fn view(&self) -> DirFacts {
        DirFacts { path: self.path@, groups: group_facts(self.groups@) }
    }
}

/// The content of each directory of a list.
pub open spec fn dir_facts(ds: Seq<DirNode>) -> Seq<DirFacts> {
    Seq::new(ds.len(), |i: int| ds[i]@)
}

/// The files found in one directory.
pub struct Listing {
    pub dir: String,
    pub files: Vec<String>,
}

/// The mathematical content of a [`Listing`].
#[verifier::ext_equal]
pub struct ListingFacts {
    pub dir: Seq<char>,
    pub files: Seq<Seq<char>>,
}

impl View for Listing {
    type V = ListingFacts;

    open spec fn view(&self) -> ListingFacts {
        ListingFacts { dir: self.dir@, files: strings(self.files@) }
    }
}

/// The content of each listing of a list.
pub open spec fn listing_facts(ls: Seq<Listing>) -> Seq<ListingFacts> {
    Seq::new(ls.len(), |i: int| ls[i]@)
}

/// `ds`, in path order, with `d` added behind every directory that does not sort after it.
pub open spec fn insert_dir(ds: Seq<DirFacts>, d: DirFacts) -> Seq<DirFacts>
    decreases ds.len(),
{
    if ds.len() > 0 && path_before(d.path, ds.last().path) {
        insert_dir(ds.drop_last(), d).push(ds.last())
    } else {
        ds.push(d)
    }
}

/// The directories that hold groups, in path order.
pub open spec fn dirs_of(ls: Seq<ListingFacts>, gs: Seq<Seq<GroupFacts>>) -> Seq<DirFacts>
    decreases ls.len(),
{
    if ls.len() == 0 {
        Seq::empty()
    } else {
        let ds = dirs_of(ls.drop_last(), gs.drop_last());
        if gs.last().len() > 0 {
            insert_dir(ds, DirFacts { path: ls.last().dir, groups: gs.last() })
        } else {
            ds
        }
    }
}

/// Each listing's files are grouped.
pub open spec fn all_grouped(ls: Seq<ListingFacts>, gs: Seq<Seq<GroupFacts>>) -> bool {
    &&& gs.len() == ls.len()
    &&& forall|i: int|
        0 <= i < ls.len() ==> grouped((#[trigger] ls[i]).dir, ls[i].files, gs[i])
}

/// `ds` is what scanning the listed directories comes to.
pub open spec fn scanned(ls: Seq<ListingFacts>, ds: Seq<DirFacts>) -> bool {
    exists|gs: Seq<Seq<GroupFacts>>| all_grouped(ls, gs) && ds == #[trigger] dirs_of(ls, gs)
}

/// One directory with its groups, still in the order of the listings.
pub fn group_listing(l: Listing) -> (d: DirNode)
    ensures
        d.path@ == l@.dir,
        grouped(l@.dir, l@.files, d@.groups),
{
    let groups = group_files(l.dir.as_str(), &l.files);
    DirNode { path: l.dir, groups }
}

/// `rayon`'s parallel `map`, collected: the listings are grouped independently, and the results
/// stand in the order of the listings.
#[verifier::external_body]
fn group_all(ls: Vec<Listing>) -> (ds: Vec<DirNode>)
    ensures
        ds@.len() == ls@.len(),
        forall|i: int|
            0 <= i < ls@.len() ==> (#[trigger] ds@[i]).path@ == ls@[i]@.dir && grouped(
                ls@[i]@.dir,
                ls@[i]@.files,
                ds@[i]@.groups,
            ),
{
    ls.into_par_iter().map(|l| group_listing(l)).collect()
}

proof fn lemma_insert_dir(ds: Seq<DirFacts>, d: DirFacts, at: int)
    requires
        0 <= at <= ds.len(),
        forall|k: int| at <= k < ds.len() ==> path_before(d.path, (#[trigger] ds[k]).path),
        at > 0 ==> !path_before(d.path, ds[at - 1].path),
    ensures
        insert_dir(ds, d) == ds.insert(at, d),
    decreases ds.len(),
{
    if at < ds.len() {
        assert(ds.last() == ds[ds.len() - 1]);
        lemma_insert_dir(ds.drop_last(), d, at);
        assert(ds.insert(at, d) == ds.drop_last().insert(at, d).push(ds.last()));
    } else {
        assert(ds.insert(at, d) == ds.push(d));
    }
}

/// Put a directory in its place.
fn add_dir(ds: &mut Vec<DirNode>, keys: &mut Vec<Vec<u32>>, d: DirNode)
    requires
        dirs_keyed(old(ds)@, old(keys)@),
    ensures
        dirs_keyed(final(ds)@, final(keys)@),
        dir_facts(final(ds)@) == insert_dir(dir_facts(old(ds)@), d@),
{
    let key = path::sort_key(d.path.as_str());
    let mut at: usize = keys.len();
    let ghost facts = dir_facts(ds@);
    let ghost ds0 = ds@;
    let ghost keys0 = keys@;
    while at > 0 && text::is_before(&key, &keys[at - 1])
        invariant
            dirs_keyed(ds@, keys@),
            facts == dir_facts(ds@),
            at <= keys@.len(),
            key@ == path::path_key(d.path@),
            forall|k: int|
                at <= k < facts.len() ==> path_before(d.path@, (#[trigger] facts[k]).path),
        decreases at,
    {
        assert(facts[at - 1].path == ds@[at - 1].path@);
        at = at - 1;
    }
    proof {
        if at > 0 {
            assert(facts[at - 1].path == ds@[at - 1].path@);
        }
        lemma_insert_dir(facts, d@, at as int);
    }
    let ghost new = d;
    ds.insert(at, d);
    keys.insert(at, key);
    proof {
        assert(dir_facts(ds@) == facts.insert(at as int, new@));
        assert forall|i: int| 0 <= i < keys@.len() implies (#[trigger] keys@[i])@
            == path::path_key(ds@[i].path@) by {
            if i < at {
                assert(keys@[i] == keys0[i] && ds@[i] == ds0[i]);
            } else if i > at {
                assert(keys@[i] == keys0[i - 1] && ds@[i] == ds0[i - 1]);
            }
        }
    }
}

/// The keys are those of the directories.
spec fn dirs_keyed(ds: Seq<DirNode>, keys: Seq<Vec<u32>>) -> bool {
    &&& keys.len() == ds.len()
    &&& forall|i: int|
        0 <= i < keys.len() ==> (#[trigger] keys[i])@ == path::path_key(ds[i].path@)
}

/// The directories among `ls` that contain displayable groups, in path order.
///
/// Grouping runs in parallel across directories. Order does not matter there because the
/// result is sorted, so the scan stays deterministic.
pub fn scan_listings(ls: Vec<Listing>) -> (out: Vec<DirNode>)
    ensures
        scanned(listing_facts(ls@), dir_facts(out@)),
{
    let ghost facts = listing_facts(ls@);
    let nodes = group_all(ls);
    let ghost all = nodes@;
    let ghost gs = Seq::new(facts.len(), |i: int| all[i]@.groups);
    assert(all_grouped(facts, gs));
    let mut out: Vec<DirNode> = Vec::new();
    let mut keys: Vec<Vec<u32>> = Vec::new();
    let mut n: Ghost<int> = Ghost(0);
    assert(dir_facts(out@) == dirs_of(facts.take(0), gs.take(0)));
    for d in it: nodes
        invariant
            it.seq() == all,
            n@ == it.index(),
            all.len() == facts.len() == gs.len(),
            gs == Seq::new(facts.len(), |i: int| all[i]@.groups),
            forall|i: int| 0 <= i < all.len() ==> (#[trigger] all[i]).path@ == facts[i].dir,
            dirs_keyed(out@, keys@),
            dir_facts(out@) == dirs_of(facts.take(n@), gs.take(n@)),
    {
        proof {
            assert(d == all[n@]);
            assert(facts.take(n@ + 1).drop_last() == facts.take(n@));
            assert(gs.take(n@ + 1).drop_last() == gs.take(n@));
            assert(gs.take(n@ + 1).last() == d@.groups);
            assert(facts.take(n@ + 1).last() == facts[n@]);
            assert(d@ == DirFacts { path: facts[n@].dir, groups: gs[n@] });
            assert(d@.groups.len() == d.groups@.len());
        }
        if d.groups.len() > 0 {
            add_dir(&mut out, &mut keys, d);
        }
        proof {
            n@ = n@ + 1;
        }
    }
    proof {
        assert(facts.take(n@) == facts);
        assert(gs.take(n@) == gs);
    }
    out
}

/// A list of groups is never empty, and directories stand in path order.
pub proof fn law_scan_is_sorted(ls: Seq<ListingFacts>, ds: Seq<DirFacts>)
    requires
        scanned(ls, ds),
    ensures
        forall|i: int| 0 <= i < ds.len() ==> (#[trigger] ds[i]).groups.len() > 0,
        forall|i: int, j: int|
            0 <= i < j < ds.len() ==> !path_before(
                (#[trigger] ds[j]).path,
                (#[trigger] ds[i]).path,
            ),
{
    let gs = choose|gs: Seq<Seq<GroupFacts>>|
        all_grouped(ls, gs) && ds == #[trigger] dirs_of(ls, gs);
    lemma_dirs_sorted(ls, gs);
}

/// Directories with groups, in path order.
spec fn dirs_in_order(ds: Seq<DirFacts>) -> bool {
    &&& forall|i: int| 0 <= i < ds.len() ==> (#[trigger] ds[i]).groups.len() > 0
    &&& forall|i: int, j: int|
        0 <= i < j < ds.len() ==> !path_before(
            (#[trigger] ds[j]).path,
            (#[trigger] ds[i]).path,
        )
}

proof fn lemma_insert_dir_sorted(ds: Seq<DirFacts>, d: DirFacts)
    requires
        dirs_in_order(ds),
        d.groups.len() > 0,
    ensures
        dirs_in_order(insert_dir(ds, d)),
        forall|i: int|
            0 <= i < insert_dir(ds, d).len() ==> #[trigger] insert_dir(ds, d)[i] == d
                || ds.contains(insert_dir(ds, d)[i]),
    decreases ds.len(),
{
    let r = insert_dir(ds, d);
    if ds.len() > 0 && path_before(d.path, ds.last().path) {
        let init = ds.drop_last();
        assert(dirs_in_order(init)) by {
            assert forall|i: int| 0 <= i < init.len() implies (#[trigger] init[i]).groups.len()
                > 0 by {
                assert(init[i] == ds[i]);
            }
            assert forall|i: int, j: int| 0 <= i < j < init.len() implies !path_before(
                (#[trigger] init[j]).path,
                (#[trigger] init[i]).path,
            ) by {
                assert(init[i] == ds[i] && init[j] == ds[j]);
            }
        }
        lemma_insert_dir_sorted(init, d);
        let s = insert_dir(init, d);
        assert forall|i: int| 0 <= i < r.len() implies #[trigger] r[i] == d || ds.contains(
            r[i],
        ) by {
            if i < s.len() {
                assert(r[i] == s[i]);
                if s[i] != d {
                    let k = choose|k: int| 0 <= k < init.len() && init[k] == s[i];
                    assert(ds[k] == s[i]);
                }
            } else {
                assert(ds[ds.len() - 1] == r[i]);
            }
        }
        assert forall|i: int| 0 <= i < r.len() implies (#[trigger] r[i]).groups.len() > 0 by {
            if i < s.len() {
                assert(r[i] == s[i]);
            } else {
                assert(r[i] == ds[ds.len() - 1]);
            }
        }
        assert forall|i: int, j: int| 0 <= i < j < r.len() implies !path_before(
            (#[trigger] r[j]).path,
            (#[trigger] r[i]).path,
        ) by {
            assert(r[i] == s[i]);
            if j < s.len() {
                assert(r[j] == s[j]);
            } else {
                assert(r[j] == ds.last());
                if s[i] == d {
                    text::lemma_before_order(
                        path::path_key(d.path),
                        path::path_key(ds.last().path),
                        path::path_key(d.path),
                    );
                } else {
                    let k = choose|k: int| 0 <= k < init.len() && init[k] == s[i];
                    assert(ds[k] == s[i]);
                    assert(ds[ds.len() - 1] == ds.last());
                }
            }
        }
    } else {
        assert forall|i: int| 0 <= i < r.len() implies #[trigger] r[i] == d || ds.contains(
            r[i],
        ) by {
            if i < ds.len() {
                assert(ds[i] == r[i]);
            }
        }
        assert forall|i: int, j: int| 0 <= i < j < r.len() implies !path_before(
            (#[trigger] r[j]).path,
            (#[trigger] r[i]).path,
        ) by {
            assert(r[i] == ds[i]);
            if j < ds.len() {
                assert(r[j] == ds[j]);
            } else if path_before(d.path, ds[i].path) {
                let last = ds[ds.len() - 1];
                if i < ds.len() - 1 {
                    text::lemma_before_order(
                        path::path_key(d.path),
                        path::path_key(ds[i].path),
                        path::path_key(last.path),
                    );
                }
            }
        }
    }
}

proof fn lemma_dirs_sorted(ls: Seq<ListingFacts>, gs: Seq<Seq<GroupFacts>>)
    ensures
        dirs_in_order(dirs_of(ls, gs)),
    decreases ls.len(),
{
    if ls.len() > 0 {
        lemma_dirs_sorted(ls.drop_last(), gs.drop_last());
        if gs.last().len() > 0 {
            lemma_insert_dir_sorted(
                dirs_of(ls.drop_last(), gs.drop_last()),
                DirFacts { path: ls.last().dir, groups: gs.last() },
            );
        }
    }
}

/// The groups of all directories, one directory after the other.
pub open spec fn flat(ds: Seq<DirFacts>) -> Seq<GroupFacts>
    decreases ds.len(),
{
    if ds.len() == 0 {
        Seq::empty()
    } else {
        flat(ds.drop_last()) + ds.last().groups
    }
}

/// The scan flattened into navigation order: directories in path order, groups by stem.
///
/// This is the sequence the prefetch ring indexes into.
pub fn flatten(dirs: &Vec<DirNode>) -> (r: Vec<Group>)
    ensures
        group_facts(r@) == flat(dir_facts(dirs@)),
{
    let mut r: Vec<Group> = Vec::new();
    let ghost facts = dir_facts(dirs@);
    assert(group_facts(r@) == flat(facts.take(0)));
    for i in 0..dirs.len()
        invariant
            facts == dir_facts(dirs@),
            group_facts(r@) == flat(facts.take(i as int)),
    {
        let ghost before = r@;
        let ghost gs = facts[i as int].groups;
        assert(gs == group_facts(dirs@[i as int].groups@));
        assert(group_facts(before) + gs.take(0) == group_facts(before));
        let groups = &dirs[i].groups;
        for k in 0..groups.len()
            invariant
                gs == group_facts(groups@),
                group_facts(r@) == group_facts(before) + gs.take(k as int),
        {
            let ghost was = r@;
            r.push(groups[k].clone());
            assert(group_facts(r@) == group_facts(was).push(gs[k as int]));
            assert(gs.take(k + 1) == gs.take(k as int).push(gs[k as int]));
            assert(group_facts(before) + gs.take(k + 1) == (group_facts(before) + gs.take(
                k as int,
            )).push(gs[k as int]));
        }
        assert(gs.take(gs.len() as int) == gs);
        assert(facts.take(i + 1).drop_last() == facts.take(i as int));
        assert(facts.take(i + 1).last() == facts[i as int]);
    }
    assert(facts.take(facts.len() as int) == facts);
    r
}

/// `v`, in path order, with `p` added behind every path that does not sort after it.
pub open spec fn insert_path(v: Seq<Seq<char>>, p: Seq<char>) -> Seq<Seq<char>>
    decreases v.len(),
{
    if v.len() > 0 && path_before(p, v.last()) {
        insert_path(v.drop_last(), p).push(v.last())
    } else {
        v.push(p)
    }
}

/// `v` in path order; equal paths as they came.
pub open spec fn sorted_paths(v: Seq<Seq<char>>) -> Seq<Seq<char>>
    decreases v.len(),
{
    if v.len() == 0 {
        v
    } else {
        insert_path(sorted_paths(v.drop_last()), v.last())
    }
}

proof fn lemma_insert_path(v: Seq<Seq<char>>, p: Seq<char>, at: int)
    requires
        0 <= at <= v.len(),
        forall|k: int| at <= k < v.len() ==> path_before(p, #[trigger] v[k]),
        at > 0 ==> !path_before(p, v[at - 1]),
    ensures
        insert_path(v, p) == v.insert(at, p),
    decreases v.len(),
{
    if at < v.len() {
        assert(v.last() == v[v.len() - 1]);
        lemma_insert_path(v.drop_last(), p, at);
        assert(v.insert(at, p) == v.drop_last().insert(at, p).push(v.last()));
    } else {
        assert(v.insert(at, p) == v.push(p));
    }
}

/// `v` in path order.
pub fn sort_paths(v: &Vec<String>) -> (r: Vec<String>)
    ensures
        strings(r@) == sorted_paths(strings(v@)),
{
    let mut r: Vec<String> = Vec::new();
    let ghost all = strings(v@);
    assert(strings(r@) == sorted_paths(all.take(0)));
    for i in 0..v.len()
        invariant
            all == strings(v@),
            strings(r@) == sorted_paths(all.take(i as int)),
    {
        let p = v[i].clone();
        let key = path::sort_key(p.as_str());
        let mut at: usize = r.len();
        let ghost sorted = strings(r@);
        while at > 0 && text::is_before(&key, &path::sort_key(r[at - 1].as_str()))
            invariant
                at <= r@.len(),
                sorted == strings(r@),
                key@ == path::path_key(p@),
                forall|k: int| at <= k < sorted.len() ==> path_before(p@, #[trigger] sorted[k]),
            decreases at,
        {
            assert(sorted[at - 1] == r@[at - 1]@);
            at = at - 1;
        }
        proof {
            if at > 0 {
                assert(sorted[at - 1] == r@[at - 1]@);
            }
            lemma_insert_path(sorted, p@, at as int);
            assert(all.take(i + 1).drop_last() == all.take(i as int));
            assert(all.take(i + 1).last() == p@);
        }
        let ghost new = p@;
        r.insert(at, p);
        assert(strings(r@) == sorted.insert(at as int, new));
    }
    assert(all.take(all.len() as int) == all);
    r
}

/// A walk through a directory tree: which directory to read next, and what was found so far.
/// Reading itself is up to the caller, who leaves out links to directories, so that there are
/// no cycles.
pub struct Walk {
    stack: Vec<String>,
    listings: Vec<Listing>,
}

/// The mathematical content of a [`Walk`]: the directories still to be read, the next one
/// last, and the listings of those that were.
#[verifier::ext_equal]
pub struct WalkFacts {
    pub pending: Seq<Seq<char>>,
    pub found: Seq<ListingFacts>,
}

impl WalkFacts {
    /// The walk once a directory has been read.
    pub open spec fn after(
        self,
        dir: Seq<char>,
        files: Seq<Seq<char>>,
        subdirs: Seq<Seq<char>>,
    ) -> WalkFacts {
        WalkFacts {
            pending: self.pending + sorted_paths(subdirs).reverse(),
            found: self.found.push(ListingFacts { dir, files }),
        }
    }
}

impl View for Walk {
    type V = WalkFacts;

    closed spec fn view(&self) -> WalkFacts {
        WalkFacts { pending: strings(self.stack@), found: listing_facts(self.listings@) }
    }
}

impl Walk {
    /// A walk that starts at `root`.
    pub fn new(root: &str) -> (w: Self)
        ensures
            w@ == (WalkFacts { pending: seq![root@], found: Seq::empty() }),
    {
        let mut stack: Vec<String> = Vec::new();
        stack.push(text::copy(root));
        let w = Walk { stack, listings: Vec::new() };
        assert(w@ == WalkFacts { pending: seq![root@], found: Seq::empty() });
        w
    }

    /// The directory to read next; `None` when all were.
    pub fn next(&mut self) -> (r: Option<String>)
        ensures
            match r {
                Some(dir) => old(self)@.pending.len() > 0 && dir@ == old(self)@.pending.last()
                    && final(self)@ == (WalkFacts {
                    pending: old(self)@.pending.drop_last(),
                    ..old(self)@
                }),
                None => old(self)@.pending.len() == 0 && final(self)@ == old(self)@,
            },
    {
        let ghost before = self.stack@;
        let r = self.stack.pop();
        proof {
            if before.len() > 0 {
                assert(strings(self.stack@) == strings(before).drop_last());
            }
        }
        r
    }

    /// Take in what was found in `dir`. Its subdirectories are read next, in path order.
    pub fn listed(&mut self, dir: String, files: Vec<String>, subdirs: &Vec<String>)
        ensures
            final(self)@ == (WalkFacts {
                pending: old(self)@.pending + sorted_paths(strings(subdirs@)).reverse(),
                found: old(self)@.found.push(
                    ListingFacts { dir: dir@, files: strings(files@) },
                ),
            }),
            final(self)@ == old(self)@.after(dir@, strings(files@), strings(subdirs@)),
    {
        let ghost before = self@;
        let ghost listings = self.listings@;
        self.listings.push(Listing { dir, files });
        assert(listing_facts(self.listings@) == listing_facts(listings).push(
            self.listings@.last()@,
        ));
        let sorted = sort_paths(subdirs);
        let ghost facts = strings(sorted@);
        // Reversed, because popping a stack inverts order.
        let mut i: usize = sorted.len();
        assert(before.pending + facts.subrange(i as int, i as int).reverse() == before.pending);
        while i > 0
            invariant
                i <= sorted@.len(),
                facts == strings(sorted@),
                self@.found == listing_facts(self.listings@),
                strings(self.stack@) == before.pending + facts.subrange(
                    i as int,
                    facts.len() as int,
                ).reverse(),
                self.listings@.len() == listings.len() + 1,
                listing_facts(self.listings@) == before.found.push(
                    ListingFacts { dir: dir@, files: strings(files@) },
                ),
            decreases i,
        {
            i = i - 1;
            let ghost stack = self.stack@;
            self.stack.push(sorted[i].clone());
            assert(strings(self.stack@) == strings(stack).push(facts[i as int]));
            assert(facts.subrange(i as int, facts.len() as int).reverse() == facts.subrange(
                i + 1,
                facts.len() as int,
            ).reverse().push(facts[i as int]));
        }
        assert(facts.subrange(0, facts.len() as int) == facts);
    }

    /// The directories that were found to contain displayable groups, in path order.
    pub fn finish(self) -> (r: Vec<DirNode>)
        ensures
            scanned(self@.found, dir_facts(r@)),
    {
        scan_listings(self.listings)
    }
}

proof fn lemma_first_dot_at(s: Seq<char>, i: int, k: int)
    requires
        0 <= i <= k <= s.len(),
        k < s.len() ==> s[k] == '.',
        forall|j: int| i <= j < k ==> s[j] != '.',
    ensures
        first_dot(s, i) == k,
    decreases k - i,
{
    if i < k {
        lemma_first_dot_at(s, i + 1, k);
    }
}

proof fn lemma_last_dot_at(s: Seq<char>, k: int)
    requires
        -1 <= k < s.len(),
        k >= 0 ==> s[k] == '.',
        forall|i: int| k < i < s.len() ==> s[i] != '.',
    ensures
        last_dot(s) == k,
    decreases s.len(),
{
    if s.len() > 0 && k < s.len() - 1 {
        let init = s.drop_last();
        assert(forall|i: int| 0 <= i < init.len() ==> #[trigger] init[i] == s[i]);
        assert(s.last() != '.');
        lemma_last_dot_at(init, k);
    }
}

/// The stem of a file name is what stands before its first dot, a dot in front excepted: names
/// that differ only in what follows share it.
pub proof fn law_stem_ends_at_the_first_dot(stem: Seq<char>, tail: Seq<char>)
    requires
        stem.len() > 0,
        forall|i: int| 0 < i < stem.len() ==> #[trigger] stem[i] != '.',
    ensures
        stem_of_name(stem + seq!['.'] + tail) == stem,
        stem_of_name(stem) == stem,
{
    let name = stem + seq!['.'] + tail;
    let n = stem.len() as int;
    assert(forall|i: int| 0 <= i < n ==> #[trigger] name[i] == stem[i]);
    let lead = if stem[0] == '.' {
        1int
    } else {
        0
    };
    let rest = undotted(name);
    assert(rest == name.subrange(lead, name.len() as int));
    lemma_first_dot_at(rest, 0, n - lead);
    assert(name.subrange(0, n) == stem);
    let short = undotted(stem);
    assert(short == stem.subrange(lead, n));
    lemma_first_dot_at(short, 0, n - lead);
    assert(stem.subrange(0, n) == stem);
}

/// The extension of a file name is what follows its last dot, a dot in front excepted, with
/// capitals in lower case and nothing else changed. A name without a dot has none.
pub proof fn law_extension_is_lower_case(base: Seq<char>, ext: Seq<char>)
    requires
        base.len() > 0,
        forall|i: int| 0 <= i < ext.len() ==> #[trigger] ext[i] != '.',
    ensures
        ({
            let e = ext_of_name(base + seq!['.'] + ext);
            &&& e.len() == ext.len()
            &&& forall|i: int|
                0 <= i < ext.len() ==> {
                    let c = #[trigger] e[i];
                    &&& 65 <= ext[i] as int <= 90 ==> c as int == ext[i] as int + 32
                    &&& !(65 <= ext[i] as int <= 90) ==> c == ext[i]
                }
        }),
        ext_of_name(ext).len() == 0,
        ext_of_name(seq!['.'] + ext).len() == 0,
{
    let name = base + seq!['.'] + ext;
    let k = base.len() as int;
    let lead = if base[0] == '.' {
        1int
    } else {
        0
    };
    let rest = undotted(name);
    assert(name[0] == base[0]);
    assert(rest == name.subrange(lead, name.len() as int));
    assert(forall|i: int| 0 <= i < ext.len() ==> #[trigger] rest[k - lead + 1 + i] == ext[i]);
    assert forall|i: int| k - lead < i < rest.len() implies rest[i] != '.' by {
        assert(rest[k - lead + 1 + (i - (k - lead) - 1)] == ext[i - (k - lead) - 1]);
    }
    lemma_last_dot_at(rest, k - lead);
    let e = ext_of_name(name);
    assert(rest.subrange(k - lead + 1, rest.len() as int) == ext);
    assert forall|i: int| 0 <= i < ext.len() implies ({
        let c = #[trigger] e[i];
        &&& 65 <= ext[i] as int <= 90 ==> c as int == ext[i] as int + 32
        &&& !(65 <= ext[i] as int <= 90) ==> c == ext[i]
    }) by {
        lemma_lower(ext[i]);
    }
    assert(undotted(ext) == ext);
    lemma_last_dot_at(ext, -1);
    let hidden = seq!['.'] + ext;
    assert(undotted(hidden) == ext);
}

pub proof fn lemma_lower(c: char)
    ensures
        65 <= c as int <= 90 ==> lower(c) as int == c as int + 32,
        !(65 <= c as int <= 90) ==> lower(c) == c,
{
    assert('A' as int == 65 && 'Z' as int == 90);
}

/// A file groups under the stem of its name, wherever it lies; and it can be shown if, and only
/// if, its extension is jpg, jpeg or arw.
pub proof fn law_file_groups_by_its_name(dir: Seq<char>, stem: Seq<char>, tail: Seq<char>)
    requires
        stem.len() > 0,
        forall|i: int| 0 < i < stem.len() ==> #[trigger] stem[i] != '.',
        path::is_name(stem + seq!['.'] + tail),
    ensures
        ({
            let name = stem + seq!['.'] + tail;
            let p = dir + seq!['/'] + name;
            &&& stem_of(p) == Some(stem)
            &&& member_of(p).path == p
            &&& member_of(p).ext == ext_of_name(name)
            &&& member_of(p).role == Role::Displayable <==> ext_of_name(name) == "jpg"@
                || ext_of_name(name) == "jpeg"@ || ext_of_name(name) == "arw"@
        }),
{
    let name = stem + seq!['.'] + tail;
    path::law_file_name_follows_the_last_separator(dir, name);
    law_stem_ends_at_the_first_dot(stem, tail);
}

/// Where some file of a stem can be shown there is a group for it, which holds all the files of
/// that stem and no others; and there is no other group for it.
pub proof fn law_files_of_a_stem_are_one_group(
    dir: Seq<char>,
    files: Seq<Seq<char>>,
    groups: Seq<GroupFacts>,
    i: int,
    stem: Seq<char>,
) -> (k: int)
    requires
        grouped(dir, files, groups),
        0 <= i < files.len(),
        stem_of(files[i]) == Some(stem),
        member_of(files[i]).role == Role::Displayable,
    ensures
        0 <= k < groups.len(),
        groups[k].stem == stem,
        groups[k].dir == dir,
        forall|m: int| 0 <= m < groups.len() && m != k ==> (#[trigger] groups[m]).stem != stem,
        forall|j: int|
            0 <= j < files.len() && stem_of(#[trigger] files[j]) == Some(stem) ==> exists|m: int|
                0 <= m < groups[k].members.len() && #[trigger] groups[k].members[m] == member_of(
                    files[j],
                ),
        forall|m: int|
            0 <= m < groups[k].members.len() ==> exists|j: int|
                0 <= j < files.len() && stem_of(#[trigger] files[j]) == Some(stem)
                    && #[trigger] groups[k].members[m] == member_of(files[j]),
{
    broadcast use vstd::seq_lib::group_to_multiset_ensures;

    let ms = members_of(files, stem);
    law_members_are_the_files_of_the_stem(files, stem);
    assert(ms.to_multiset().count(member_of(files[i])) > 0);
    assert(ms.contains(member_of(files[i])));
    let n = choose|n: int| 0 <= n < ms.len() && ms[n] == member_of(files[i]);
    assert(ms[n].role == Role::Displayable);
    assert(displayable(ms));
    assert(has_stem(groups, stem));
    let k = choose|k: int| 0 <= k < groups.len() && (#[trigger] groups[k]).stem == stem;
    assert(groups[k].members == ms);
    let key = text::codes(stem);
    text::lemma_before_order(key, key, key);
    assert forall|m: int| 0 <= m < groups.len() && m != k implies (#[trigger] groups[m]).stem
        != stem by {
        if m < k {
            assert(text::before(text::codes(groups[m].stem), text::codes(groups[k].stem)));
        } else {
            assert(text::before(text::codes(groups[k].stem), text::codes(groups[m].stem)));
        }
    }
    assert forall|j: int| 0 <= j < files.len() && stem_of(#[trigger] files[j]) == Some(
        stem,
    ) implies exists|m: int|
        0 <= m < groups[k].members.len() && #[trigger] groups[k].members[m] == member_of(
            files[j],
        ) by {
        assert(ms.to_multiset().count(member_of(files[j])) > 0);
        assert(ms.contains(member_of(files[j])));
        let m = choose|m: int| 0 <= m < ms.len() && ms[m] == member_of(files[j]);
        assert(groups[k].members[m] == member_of(files[j]));
    }
    assert forall|m: int| 0 <= m < groups[k].members.len() implies exists|j: int|
        0 <= j < files.len() && stem_of(#[trigger] files[j]) == Some(stem)
            && #[trigger] groups[k].members[m] == member_of(files[j]) by {
        assert(ms.contains(ms[m]));
        assert(ms.to_multiset().count(ms[m]) > 0);
        let j = choose|j: int|
            0 <= j < files.len() && stem_of(#[trigger] files[j]) == Some(stem) && ms[m]
                == member_of(files[j]);
        assert(groups[k].members[m] == member_of(files[j]));
    }
    k
}

/// No group is made of sidecars alone, and groups stand in the order of their stems.
pub proof fn law_every_group_has_something_to_show(
    dir: Seq<char>,
    files: Seq<Seq<char>>,
    groups: Seq<GroupFacts>,
    k: int,
    m: int,
)
    requires
        grouped(dir, files, groups),
        0 <= k < m < groups.len(),
    ensures
        exists|j: int|
            0 <= j < files.len() && stem_of(#[trigger] files[j]) == Some(groups[k].stem)
                && member_of(files[j]).role == Role::Displayable,
        text::before(text::codes(groups[k].stem), text::codes(groups[m].stem)),
{
    broadcast use vstd::seq_lib::group_to_multiset_ensures;

    let stem = groups[k].stem;
    let ms = members_of(files, stem);
    law_members_are_the_files_of_the_stem(files, stem);
    assert(groups[k].members == ms);
    let n = choose|n: int| 0 <= n < ms.len() && (#[trigger] ms[n]).role == Role::Displayable;
    assert(ms.contains(ms[n]));
    assert(ms.to_multiset().count(ms[n]) > 0);
    let j = choose|j: int|
        0 <= j < files.len() && stem_of(#[trigger] files[j]) == Some(stem) && ms[n] == member_of(
            files[j],
        );
    assert(stem_of(files[j]) == Some(stem));
}

proof fn lemma_best(ms: Seq<MemberFacts>)
    ensures
        best_member(ms) is None ==> forall|i: int|
            0 <= i < ms.len() ==> (#[trigger] ms[i]).role != Role::Displayable,
        best_member(ms) matches Some(b) ==> exists|k: int|
            {
                &&& 0 <= k < ms.len()
                &&& #[trigger] ms[k] == b
                &&& b.role == Role::Displayable
                &&& forall|i: int|
                    0 <= i < ms.len() && (#[trigger] ms[i]).role == Role::Displayable
                        ==> preference(b.ext) <= preference(ms[i].ext)
                &&& forall|i: int|
                    0 <= i < k && (#[trigger] ms[i]).role == Role::Displayable ==> preference(b.ext)
                        < preference(ms[i].ext)
            },
    decreases ms.len(),
{
    if ms.len() > 0 {
        let init = ms.drop_last();
        lemma_best(init);
        assert(forall|i: int| 0 <= i < init.len() ==> #[trigger] init[i] == ms[i]);
        let last = ms.len() - 1;
        if let Some(b) = best_member(init) {
            let k = choose|k: int|
                {
                    &&& 0 <= k < init.len()
                    &&& #[trigger] init[k] == b
                    &&& b.role == Role::Displayable
                    &&& forall|i: int|
                        0 <= i < init.len() && (#[trigger] init[i]).role == Role::Displayable
                            ==> preference(b.ext) <= preference(init[i].ext)
                    &&& forall|i: int|
                        0 <= i < k && (#[trigger] init[i]).role == Role::Displayable ==> preference(
                            b.ext,
                        ) < preference(init[i].ext)
                };
            assert forall|i: int|
                0 <= i < init.len() && (#[trigger] ms[i]).role == Role::Displayable implies
                preference(b.ext) <= preference(ms[i].ext) && (i < k ==> preference(b.ext)
                < preference(ms[i].ext)) by {
                assert(init[i] == ms[i]);
            }
            if best_member(ms) == Some(b) {
                assert(ms[k] == b);
            } else {
                assert(ms[last] == best_member(ms)->0);
            }
        } else {
            assert forall|i: int|
                0 <= i < init.len() implies (#[trigger] ms[i]).role != Role::Displayable by {
                assert(init[i] == ms[i]);
            }
            if best_member(ms) is Some {
                assert(ms[last] == best_member(ms)->0);
            }
        }
    }
}

/// The members are what grouping makes: a member can be shown just if its extension says so.
pub open spec fn roles_fit(ms: Seq<MemberFacts>) -> bool {
    forall|i: int|
        0 <= i < ms.len() ==> ((#[trigger] ms[i]).role == Role::Displayable <==> ms[i].ext
            == "jpg"@ || ms[i].ext == "jpeg"@ || ms[i].ext == "arw"@)
}

/// A group is shown from its first jpg, failing that from its first jpeg, failing that from its
/// first arw; and there is nothing to show of a group that has none of them.
pub proof fn law_jpeg_is_shown_before_raw(g: GroupFacts, k: int)
    requires
        roles_fit(g.members),
        0 <= k <= g.members.len(),
    ensures
        k < g.members.len() && g.members[k].ext == "jpg"@ && (forall|i: int|
            0 <= i < k ==> (#[trigger] g.members[i]).ext != "jpg"@) ==> g.display_path() == Some(
            g.members[k].path,
        ),
        k < g.members.len() && g.members[k].ext == "jpeg"@ && (forall|i: int|
            0 <= i < g.members.len() ==> (#[trigger] g.members[i]).ext != "jpg"@) && (forall|i: int|
            0 <= i < k ==> (#[trigger] g.members[i]).ext != "jpeg"@) ==> g.display_path() == Some(
            g.members[k].path,
        ),
        k < g.members.len() && g.members[k].ext == "arw"@ && (forall|i: int|
            0 <= i < g.members.len() ==> (#[trigger] g.members[i]).ext != "jpg"@
                && g.members[i].ext != "jpeg"@) && (forall|i: int|
            0 <= i < k ==> (#[trigger] g.members[i]).ext != "arw"@) ==> g.display_path() == Some(
            g.members[k].path,
        ),
        (forall|i: int|
            0 <= i < g.members.len() ==> (#[trigger] g.members[i]).ext != "jpg"@
                && g.members[i].ext != "jpeg"@ && g.members[i].ext != "arw"@)
            ==> g.display_path() is None,
{
    let ms = g.members;
    lemma_best(ms);
    reveal_strlit("jpg");
    reveal_strlit("jpeg");
    reveal_strlit("arw");
    assert("jpg"@ != "arw"@) by {
        assert("jpg"@[0] != "arw"@[0]);
    }
    assert("jpg"@.len() != "jpeg"@.len());
    assert("arw"@.len() != "jpeg"@.len());
    if let Some(b) = best_member(ms) {
        let n = choose|n: int|
            {
                &&& 0 <= n < ms.len()
                &&& #[trigger] ms[n] == b
                &&& b.role == Role::Displayable
                &&& forall|i: int|
                    0 <= i < ms.len() && (#[trigger] ms[i]).role == Role::Displayable
                        ==> preference(b.ext) <= preference(ms[i].ext)
                &&& forall|i: int|
                    0 <= i < n && (#[trigger] ms[i]).role == Role::Displayable ==> preference(b.ext)
                        < preference(ms[i].ext)
            };
        if k < ms.len() {
            assert(ms[k].role == Role::Displayable ==> preference(b.ext) <= preference(ms[k].ext));
            assert(ms[n].ext == b.ext);
        }
    } else if k < ms.len() {
        assert(ms[k].role != Role::Displayable);
    }
}

/// What a group holds is said in one word: whether there is a JPEG, a RAW, both or neither.
pub proof fn law_kind_says_what_is_there(g: GroupFacts, i: int, j: int)
    requires
        0 <= i < g.members.len(),
        0 <= j < g.members.len(),
    ensures
        g.members[i].ext == "arw"@ ==> g.has_raw(),
        g.members[i].ext == "jpg"@ || g.members[i].ext == "jpeg"@ ==> g.has_jpeg(),
        g.members[i].ext == "arw"@ && (g.members[j].ext == "jpg"@ || g.members[j].ext == "jpeg"@)
            ==> g.kind() == "JPG+ARW"@,
        (g.members[j].ext == "jpg"@ || g.members[j].ext == "jpeg"@) && (forall|k: int|
            0 <= k < g.members.len() ==> (#[trigger] g.members[k]).ext != "arw"@) ==> g.kind()
            == "JPG"@ && !g.has_raw(),
        g.members[i].ext == "arw"@ && (forall|k: int|
            0 <= k < g.members.len() ==> (#[trigger] g.members[k]).ext != "jpg"@
                && g.members[k].ext != "jpeg"@) ==> g.kind() == "ARW"@ && !g.has_jpeg(),
        (forall|k: int|
            0 <= k < g.members.len() ==> (#[trigger] g.members[k]).ext != "jpg"@
                && g.members[k].ext != "jpeg"@ && g.members[k].ext != "arw"@) ==> g.kind() == "-"@,
{
    assert(g.members[i].ext == g.members[i].ext && g.members[j].ext == g.members[j].ext);
}

/// The list runs through the directories one after the other, each with its groups in order.
pub proof fn law_list_runs_through_the_directories(a: Seq<DirFacts>, b: Seq<DirFacts>, d: DirFacts)
    ensures
        flat(Seq::empty()) == Seq::<GroupFacts>::empty(),
        flat(seq![d]) == d.groups,
        flat(a + b) == flat(a) + flat(b),
    decreases b.len(),
{
    assert(seq![d].drop_last() == Seq::<DirFacts>::empty());
    assert(flat(Seq::<DirFacts>::empty()) + d.groups == d.groups);
    if b.len() == 0 {
        assert(a + b == a);
        assert(flat(a) + flat(b) == flat(a));
    } else {
        law_list_runs_through_the_directories(a, b.drop_last(), d);
        assert((a + b).drop_last() == a + b.drop_last());
        assert((a + b).last() == b.last());
        assert(flat(a) + (flat(b.drop_last()) + b.last().groups) == (flat(a) + flat(b.drop_last()))
            + b.last().groups);
    }
}

/// What is known of a file is what was last found out about it, under whatever spelling of its
/// path; and a group is as large as its files together.
pub proof fn law_last_word_on_a_file_counts(
    known: Map<Seq<char>, FileMeta>,
    batch: Seq<(String, FileMeta)>,
    p: String,
    m: FileMeta,
    q: Seq<char>,
    ms: Seq<MemberFacts>,
    one: MemberFacts,
)
    ensures
        path::canonical(q) == path::canonical(p@) ==> meta_of(
            published(known, batch.push((p, m))),
            q,
        ) == Some(m),
        path::canonical(q) != path::canonical(p@) ==> meta_of(
            published(known, batch.push((p, m))),
            q,
        ) == meta_of(published(known, batch), q),
        published(known, Seq::empty()) == known,
        known_bytes(known, Seq::empty()) == 0,
        meta_of(known, one.path) matches Some(f) ==> known_bytes(known, ms.push(one))
            == known_bytes(known, ms) + f.size,
        meta_of(known, one.path) is None ==> known_bytes(known, ms.push(one)) == known_bytes(
            known,
            ms,
        ),
        meta_of(known, q) is Some <==> known.contains_key(path::canonical(q)),
        meta_of(known, q) is Some ==> meta_of(known, q)->0 == known[path::canonical(q)],
{
    assert(batch.push((p, m)).drop_last() == batch);
    assert(ms.push(one).drop_last() == ms);
}

/// A group is as old as its oldest file, as far as it is known.
pub proof fn law_group_is_as_old_as_its_oldest_file(
    known: Map<Seq<char>, FileMeta>,
    ms: Seq<MemberFacts>,
    t: Option<WallTime>,
    i: int,
    f: FileMeta,
    u: WallTime,
)
    requires
        earliest(known, ms, t),
        0 <= i < ms.len(),
        known.contains_key(path::canonical(ms[i].path)),
        known[path::canonical(ms[i].path)] == f,
        f.modified == Some(u),
    ensures
        t is Some,
        t->0.secs < u.secs || (t->0.secs == u.secs && t->0.nanos <= u.nanos),
        exists|j: int|
            0 <= j < ms.len() && known.contains_key(path::canonical((#[trigger] ms[j]).path))
                && known[path::canonical(ms[j].path)].modified == t,
{
    assert(known_time(known, ms[i].path) == Some(u));
    if let Some(v) = t {
        let j = choose|j: int|
            0 <= j < ms.len() && known_time(known, (#[trigger] ms[j]).path) == Some(v);
        assert(known.contains_key(path::canonical(ms[j].path)));
    }
}

proof fn lemma_insert_dir_holds(ds: Seq<DirFacts>, d: DirFacts, x: DirFacts)
    ensures
        insert_dir(ds, d).contains(x) <==> x == d || ds.contains(x),
        insert_dir(ds, d).len() == ds.len() + 1,
    decreases ds.len(),
{
    let r = insert_dir(ds, d);
    if ds.len() > 0 && path_before(d.path, ds.last().path) {
        let init = ds.drop_last();
        lemma_insert_dir_holds(init, d, x);
        let s = insert_dir(init, d);
        if r.contains(x) {
            let k = choose|k: int| 0 <= k < r.len() && r[k] == x;
            if k < s.len() {
                assert(s[k] == x);
                if x != d {
                    let n = choose|n: int| 0 <= n < init.len() && init[n] == x;
                    assert(ds[n] == x);
                }
            } else {
                assert(ds[ds.len() - 1] == x);
            }
        }
        if x == d || ds.contains(x) {
            if ds.contains(x) {
                let n = choose|n: int| 0 <= n < ds.len() && ds[n] == x;
                if n < init.len() {
                    assert(init[n] == x);
                } else {
                    assert(r[s.len() as int] == x);
                }
            }
            if s.contains(x) {
                let k = choose|k: int| 0 <= k < s.len() && s[k] == x;
                assert(r[k] == x);
            }
        }
    } else {
        if r.contains(x) {
            let k = choose|k: int| 0 <= k < r.len() && r[k] == x;
            if k < ds.len() {
                assert(ds[k] == x);
            }
        }
        if ds.contains(x) {
            let n = choose|n: int| 0 <= n < ds.len() && ds[n] == x;
            assert(r[n] == x);
        }
        assert(r[ds.len() as int] == d);
    }
}

proof fn lemma_dirs_hold(ls: Seq<ListingFacts>, gs: Seq<Seq<GroupFacts>>, x: DirFacts)
    requires
        ls.len() == gs.len(),
    ensures
        dirs_of(ls, gs).contains(x) <==> exists|i: int|
            0 <= i < ls.len() && x.path == (#[trigger] ls[i]).dir && x.groups == gs[i]
                && gs[i].len() > 0,
    decreases ls.len(),
{
    if ls.len() > 0 {
        let (l, g) = (ls.drop_last(), gs.drop_last());
        lemma_dirs_hold(l, g, x);
        let last = ls.len() - 1;
        let d = DirFacts { path: ls[last].dir, groups: gs[last] };
        lemma_insert_dir_holds(dirs_of(l, g), d, x);
        assert(forall|i: int| 0 <= i < l.len() ==> #[trigger] l[i] == ls[i] && g[i] == gs[i]);
        if dirs_of(ls, gs).contains(x) {
            if dirs_of(l, g).contains(x) {
                let i = choose|i: int|
                    0 <= i < l.len() && x.path == (#[trigger] l[i]).dir && x.groups == g[i]
                        && g[i].len() > 0;
                assert(ls[i] == l[i] && gs[i] == g[i]);
            } else {
                assert(x.path == ls[last].dir);
            }
        }
        if exists|i: int|
            0 <= i < ls.len() && x.path == (#[trigger] ls[i]).dir && x.groups == gs[i]
                && gs[i].len() > 0 {
            let i = choose|i: int|
                0 <= i < ls.len() && x.path == (#[trigger] ls[i]).dir && x.groups == gs[i]
                    && gs[i].len() > 0;
            if i < last {
                assert(l[i] == ls[i] && g[i] == gs[i]);
            } else {
                assert(x == d);
            }
        }
    } else {
        assert(dirs_of(ls, gs) == Seq::<DirFacts>::empty());
    }
}

/// Every directory that holds something to show is in the scan, with its files grouped; and no
/// other directory is.
pub proof fn law_scan_finds_every_directory(
    ls: Seq<ListingFacts>,
    ds: Seq<DirFacts>,
    i: int,
    j: int,
    k: int,
)
    requires
        scanned(ls, ds),
    ensures
        0 <= i < ls.len() && 0 <= j < ls[i].files.len() && stem_of(ls[i].files[j]) is Some
            && member_of(ls[i].files[j]).role == Role::Displayable ==> exists|n: int|
            0 <= n < ds.len() && (#[trigger] ds[n]).path == ls[i].dir && grouped(
                ls[i].dir,
                ls[i].files,
                ds[n].groups,
            ),
        0 <= k < ds.len() ==> ds[k].groups.len() > 0 && exists|n: int|
            0 <= n < ls.len() && ds[k].path == (#[trigger] ls[n]).dir && grouped(
                ls[n].dir,
                ls[n].files,
                ds[k].groups,
            ),
{
    let gs = choose|gs: Seq<Seq<GroupFacts>>|
        all_grouped(ls, gs) && ds == #[trigger] dirs_of(ls, gs);
    if 0 <= i < ls.len() && 0 <= j < ls[i].files.len() && stem_of(ls[i].files[j]) is Some
        && member_of(ls[i].files[j]).role == Role::Displayable {
        assert(grouped(ls[i].dir, ls[i].files, gs[i]));
        let stem = stem_of(ls[i].files[j])->0;
        let m = law_files_of_a_stem_are_one_group(ls[i].dir, ls[i].files, gs[i], j, stem);
        let x = DirFacts { path: ls[i].dir, groups: gs[i] };
        lemma_dirs_hold(ls, gs, x);
        assert(ds.contains(x));
        let n = choose|n: int| 0 <= n < ds.len() && ds[n] == x;
        assert(ds[n].path == ls[i].dir);
    }
    if 0 <= k < ds.len() {
        lemma_dirs_hold(ls, gs, ds[k]);
        assert(ds.contains(ds[k]));
        let n = choose|n: int|
            0 <= n < ls.len() && ds[k].path == (#[trigger] ls[n]).dir && ds[k].groups == gs[n]
                && gs[n].len() > 0;
        assert(grouped(ls[n].dir, ls[n].files, gs[n]));
    }
}

/// Paths in path order.
pub open spec fn in_path_order(v: Seq<Seq<char>>) -> bool {
    forall|i: int, j: int|
        0 <= i < j < v.len() ==> !path_before(#[trigger] v[j], #[trigger] v[i])
}

proof fn lemma_insert_path_sorted(v: Seq<Seq<char>>, p: Seq<char>)
    requires
        in_path_order(v),
    ensures
        in_path_order(insert_path(v, p)),
        insert_path(v, p).to_multiset() == v.to_multiset().insert(p),
        forall|i: int|
            0 <= i < insert_path(v, p).len() ==> #[trigger] insert_path(v, p)[i] == p
                || v.contains(insert_path(v, p)[i]),
    decreases v.len(),
{
    broadcast use vstd::seq_lib::group_to_multiset_ensures;

    let r = insert_path(v, p);
    if v.len() > 0 && path_before(p, v.last()) {
        let init = v.drop_last();
        assert(forall|i: int| 0 <= i < init.len() ==> #[trigger] init[i] == v[i]);
        lemma_insert_path_sorted(init, p);
        let s = insert_path(init, p);
        let last = v.len() - 1;
        assert(v == init.push(v.last()));
        assert(r.to_multiset() =~= v.to_multiset().insert(p));
        assert forall|i: int| 0 <= i < s.len() implies !path_before(v[last], #[trigger] s[i])
            && (s[i] == p || v.contains(s[i])) by {
            if s[i] == p {
                text::lemma_before_order(
                    path::path_key(p),
                    path::path_key(v[last]),
                    path::path_key(p),
                );
            } else {
                let n = choose|n: int| 0 <= n < init.len() && init[n] == s[i];
                assert(v[n] == s[i]);
            }
        }
        assert forall|i: int, j: int| 0 <= i < j < r.len() implies !path_before(
            #[trigger] r[j],
            #[trigger] r[i],
        ) by {
            assert(r[i] == s[i]);
            if j < s.len() {
                assert(r[j] == s[j]);
            }
        }
        assert forall|i: int| 0 <= i < r.len() implies #[trigger] r[i] == p || v.contains(
            r[i],
        ) by {
            if i < s.len() {
                assert(r[i] == s[i]);
            } else {
                assert(v[last] == r[i]);
            }
        }
    } else {
        assert forall|i: int, j: int| 0 <= i < j < r.len() implies !path_before(
            #[trigger] r[j],
            #[trigger] r[i],
        ) by {
            if j == v.len() && i < v.len() - 1 {
                let (a, b, c) = (
                    path::path_key(p),
                    path::path_key(v[i]),
                    path::path_key(v[v.len() - 1]),
                );
                assert(!path_before(v[v.len() - 1], v[i]));
                text::lemma_before_total(b, c);
                text::lemma_before_order(a, b, c);
            }
        }
        assert forall|i: int| 0 <= i < r.len() implies #[trigger] r[i] == p || v.contains(
            r[i],
        ) by {
            if i < v.len() {
                assert(v[i] == r[i]);
            }
        }
    }
}

/// Sorting paths loses none, adds none and puts them in path order.
pub proof fn law_sorting_paths_keeps_them(v: Seq<Seq<char>>)
    ensures
        in_path_order(sorted_paths(v)),
        sorted_paths(v).to_multiset() == v.to_multiset(),
        sorted_paths(v).len() == v.len(),
    decreases v.len(),
{
    broadcast use vstd::seq_lib::group_to_multiset_ensures;

    if v.len() > 0 {
        let init = v.drop_last();
        law_sorting_paths_keeps_them(init);
        lemma_insert_path_sorted(sorted_paths(init), v.last());
        assert(v == init.push(v.last()));
        assert(sorted_paths(v).to_multiset().len() == v.to_multiset().len());
    }
}

/// A group is said to be shown from its RAW just if the file that is shown ends in `.arw`, in
/// whatever case.
pub proof fn law_raw_only_means_shown_from_raw(g: GroupFacts, dir: Seq<char>, base: Seq<char>, ext: Seq<
    char,
>)
    requires
        base.len() > 0,
        path::is_name(base + seq!['.'] + ext),
        forall|i: int| 0 <= i < ext.len() ==> #[trigger] ext[i] != '.',
        g.display_path() == Some(dir + seq!['/'] + (base + seq!['.'] + ext)),
    ensures
        g.is_raw_only() <==> ext.len() == 3 && (ext[0] == 'a' || ext[0] == 'A') && (ext[1] == 'r'
            || ext[1] == 'R') && (ext[2] == 'w' || ext[2] == 'W'),
{
    path::law_extension_follows_the_last_dot(dir, base, ext);
    if ext.len() == 3 {
        lemma_lower(ext[0]);
        lemma_lower(ext[1]);
        lemma_lower(ext[2]);
        lemma_same_char(ext[0], 'A', 'a');
        lemma_same_char(ext[1], 'R', 'r');
        lemma_same_char(ext[2], 'W', 'w');
    }
}

proof fn lemma_same_char(c: char, upper: char, low: char)
    requires
        65 <= upper as int <= 90,
        low as int == upper as int + 32,
    ensures
        lower(c) == low <==> c == low || c == upper,
{
    lemma_lower(c);
}

/// A walk goes into the subdirectories of what it has just read, the first in path order next, and
/// only then on to what was waiting before; it records what it read, and loses nothing that it
/// has still to read.
pub proof fn law_walk_goes_deeper_first(
    w: WalkFacts,
    dir: Seq<char>,
    files: Seq<Seq<char>>,
    subdirs: Seq<Seq<char>>,
    i: int,
)
    ensures
        ({
            let t = w.after(dir, files, subdirs);
            &&& t.found.len() == w.found.len() + 1
            &&& t.found.last().dir == dir && t.found.last().files == files
            &&& t.found.take(w.found.len() as int) == w.found
            &&& t.pending.len() == w.pending.len() + subdirs.len()
            &&& t.pending.take(w.pending.len() as int) == w.pending
            &&& 0 <= i < subdirs.len() ==> t.pending.skip(w.pending.len() as int).contains(
                subdirs[i],
            )
            &&& subdirs.len() > 0 ==> subdirs.contains(t.pending.last())
            &&& 0 <= i < subdirs.len() ==> !path_before(subdirs[i], t.pending.last())
        }),
{
    broadcast use vstd::seq_lib::group_to_multiset_ensures;

    let t = w.after(dir, files, subdirs);
    let v = sorted_paths(subdirs);
    law_sorting_paths_keeps_them(subdirs);
    assert(t.found.take(w.found.len() as int) == w.found);
    assert(t.pending.take(w.pending.len() as int) == w.pending);
    let back = v.reverse();
    assert(t.pending.skip(w.pending.len() as int) == back);
    if subdirs.len() > 0 {
        assert(t.pending.last() == v[0]);
        assert(v.contains(v[0]));
        assert(v.to_multiset().count(v[0]) > 0);
        assert(subdirs.to_multiset().count(v[0]) > 0);
    }
    if 0 <= i < subdirs.len() {
        assert(subdirs.contains(subdirs[i]));
        assert(subdirs.to_multiset().count(subdirs[i]) > 0);
        assert(v.to_multiset().count(subdirs[i]) > 0);
        assert(v.contains(subdirs[i]));
        let k = choose|k: int| 0 <= k < v.len() && v[k] == subdirs[i];
        assert(back[v.len() - 1 - k] == subdirs[i]);
        if k > 0 {
            assert(!path_before(v[k], v[0]));
        } else {
            let key = path::path_key(v[0]);
            text::lemma_before_order(key, key, key);
        }
    }
}

} // verus!

//! Finding the first few files of a kind in a directory tree, for trying things out on them.
use vstd::prelude::*;
use crate::path;
use crate::scan;
use crate::text;

verus! {

/// Something found in a directory.
pub struct Item {
    pub path: String,
    pub is_dir: bool,
}

/// The mathematical content of an [`Item`].
#[verifier::ext_equal]
pub struct ItemFacts {
    pub path: Seq<char>,
    pub is_dir: bool,
}

impl View for Item {
    type V = ItemFacts;

    open spec fn view(&self) -> ItemFacts {
        ItemFacts { path: self.path@, is_dir: self.is_dir }
    }
}

/// The content of each item of a list.
pub open spec fn item_facts(v: Seq<Item>) -> Seq<ItemFacts> {
    Seq::new(v.len(), |i: int| v[i]@)
}

/// The texts are the same but for the case of ASCII letters.
pub open spec fn same_letters(a: Seq<char>, b: Seq<char>) -> bool {
    a.len() == b.len() && forall|i: int|
        0 <= i < a.len() ==> scan::lower(#[trigger] a[i]) == scan::lower(b[i])
}

/// The file has the extension `ext`, in either case.
pub open spec fn has_extension(p: Seq<char>, ext: Seq<char>) -> bool {
    match path::spec_extension(p) {
        Some(e) => same_letters(e, ext),
        None => false,
    }
}

/// The files among `items` that have the extension, as they come.
pub open spec fn matching(items: Seq<ItemFacts>, ext: Seq<char>) -> Seq<Seq<char>>
    decreases items.len(),
{
    if items.len() == 0 {
        Seq::empty()
    } else {
        let m = matching(items.drop_last(), ext);
        if !items.last().is_dir && has_extension(items.last().path, ext) {
            m.push(items.last().path)
        } else {
            m
        }
    }
}

/// The directories among `items`, as they come.
pub open spec fn subdirs(items: Seq<ItemFacts>) -> Seq<Seq<char>>
    decreases items.len(),
{
    if items.len() == 0 {
        Seq::empty()
    } else {
        let d = subdirs(items.drop_last());
        if items.last().is_dir {
            d.push(items.last().path)
        } else {
            d
        }
    }
}

/// A search through a directory tree: which directory to read next, and what was found so far.
/// Reading itself is up to the caller.
pub struct Search {
    ext: Vec<char>,
    limit: usize,
    stack: Vec<String>,
    found: Vec<String>,
    full: bool,
}

/// The mathematical content of a [`Search`]: the directories still to be read, the next one
/// last, and the files that were found. A full search has found enough.
#[verifier::ext_equal]
pub struct SearchFacts {
    pub ext: Seq<char>,
    pub limit: usize,
    pub pending: Seq<Seq<char>>,
    pub found: Seq<Seq<char>>,
    pub full: bool,
}

impl View for Search {
    type V = SearchFacts;

    closed spec fn view(&self) -> SearchFacts {
        SearchFacts {
            ext: self.ext@,
            limit: self.limit,
            pending: scan::strings(self.stack@),
            found: scan::strings(self.found@),
            full: self.full,
        }
    }
}

impl SearchFacts {
    /// How many more files are looked for; always one at least.
    pub open spec fn room(self) -> int {
        if self.limit > self.found.len() {
            self.limit - self.found.len()
        } else {
            1
        }
    }

    /// The search once a directory has been read. It ends with the file that fills it.
    pub open spec fn after(self, items: Seq<ItemFacts>) -> SearchFacts {
        let m = matching(items, self.ext);
        if self.full {
            self
        } else if m.len() >= self.room() {
            SearchFacts { found: self.found + m.take(self.room()), full: true, ..self }
        } else {
            SearchFacts {
                found: self.found + m,
                pending: self.pending + scan::sorted_paths(subdirs(items)),
                ..self
            }
        }
    }
}

fn is_named(p: &str, ext: &Vec<char>) -> (r: bool)
    ensures
        r == has_extension(p@, ext@),
{
    let e = match path::extension(p) {
        Some(e) => e,
        None => {
            return false;
        },
    };
    if e.len() != ext.len() {
        return false;
    }
    for i in 0..e.len()
        invariant
            e@.len() == ext@.len(),
            path::spec_extension(p@) == Some(e@),
            forall|k: int| 0 <= k < i ==> scan::lower(#[trigger] e@[k]) == scan::lower(ext@[k]),
    {
        if scan::lower_ascii(e[i]) != scan::lower_ascii(ext[i]) {
            assert(scan::lower(e@[i as int]) != scan::lower(ext@[i as int]));
            return false;
        }
    }
    true
}

proof fn lemma_strings_push(v: Seq<String>, s: String)
    ensures
        scan::strings(v.push(s)) == scan::strings(v).push(s@),
{
    assert(scan::strings(v.push(s)) =~= scan::strings(v).push(s@));
}

proof fn lemma_matching_grows(items: Seq<ItemFacts>, ext: Seq<char>, n: int)
    requires
        0 <= n <= items.len(),
    ensures
        matching(items.take(n), ext).is_prefix_of(matching(items, ext)),
    decreases items.len() - n,
{
    if n < items.len() {
        lemma_matching_grows(items, ext, n + 1);
        let m = matching(items.take(n), ext);
        let next = matching(items.take(n + 1), ext);
        let all = matching(items, ext);
        assert(items.take(n + 1).drop_last() == items.take(n));
        assert(m == next.subrange(0, m.len() as int));
        assert(m == all.subrange(0, m.len() as int));
    } else {
        assert(items.take(n) == items);
        let all = matching(items, ext);
        assert(all == all.subrange(0, all.len() as int));
    }
}

impl Search {
    /// A search for up to `limit` files with the extension `ext` under `root`.
    pub fn new(root: &str, ext: &str, limit: usize) -> (s: Self)
        ensures
            s@ == (SearchFacts {
                ext: ext@,
                limit,
                pending: seq![root@],
                found: Seq::empty(),
                full: false,
            }),
    {
        let mut stack: Vec<String> = Vec::new();
        stack.push(text::copy(root));
        let s = Search {
            ext: text::to_chars(ext),
            limit,
            stack,
            found: Vec::new(),
            full: false,
        };
        assert(s@.pending == seq![root@]);
        assert(s@.found == Seq::<Seq<char>>::empty());
        s
    }

    /// The directory to read next; `None` when enough was found, or nothing is left to read.
    pub fn next(&mut self) -> (r: Option<String>)
        ensures
            match r {
                Some(dir) => !old(self)@.full && old(self)@.pending.len() > 0 && dir@
                    == old(self)@.pending.last() && final(self)@ == (SearchFacts {
                    pending: old(self)@.pending.drop_last(),
                    ..old(self)@
                }),
                None => (old(self)@.full || old(self)@.pending.len() == 0) && final(self)@
                    == old(self)@,
            },
    {
        if self.full {
            return None;
        }
        let ghost before = self.stack@;
        let r = self.stack.pop();
        proof {
            if before.len() > 0 {
                assert(scan::strings(self.stack@) == scan::strings(before).drop_last());
            }
        }
        r
    }

    /// Take in what was found in a directory.
    pub fn listed(&mut self, items: &Vec<Item>)
        ensures
            final(self)@ == old(self)@.after(item_facts(items@)),
    {
        if self.full {
            return;
        }
        let ghost before = self@;
        let ghost facts = item_facts(items@);
        let mut dirs: Vec<String> = Vec::new();
        assert(before.found + matching(facts.take(0), before.ext) == before.found);
        assert(scan::strings(dirs@) == subdirs(facts.take(0)));
        for i in 0..items.len()
            invariant
                facts == item_facts(items@),
                before == old(self)@,
                !before.full,
                self@ == (SearchFacts {
                    found: before.found + matching(facts.take(i as int), before.ext),
                    ..before
                }),
                matching(facts.take(i as int), before.ext).len() < before.room(),
                scan::strings(dirs@) == subdirs(facts.take(i as int)),
        {
            let ghost head = facts.take(i + 1);
            let ghost m = matching(facts.take(i as int), before.ext);
            assert(head.drop_last() == facts.take(i as int));
            assert(head.last() == items@[i as int]@);
            if items[i].is_dir {
                let ghost was = dirs@;
                let d = items[i].path.clone();
                let ghost new = d;
                dirs.push(d);
                proof {
                    lemma_strings_push(was, new);
                }
            } else if is_named(items[i].path.as_str(), &self.ext) {
                let ghost was = self.found@;
                let p = items[i].path.clone();
                let ghost new = p;
                self.found.push(p);
                proof {
                    lemma_strings_push(was, new);
                    assert(before.found + m.push(new@) == (before.found + m).push(new@));
                    assert(self@.found == before.found + matching(head, before.ext));
                }
                if self.found.len() >= self.limit {
                    self.full = true;
                    proof {
                        lemma_matching_grows(facts, before.ext, i + 1);
                        let all = matching(facts, before.ext);
                        assert(matching(head, before.ext) == all.take(before.room()));
                    }
                    return;
                }
            }
        }
        assert(facts.take(facts.len() as int) == facts);
        // In order, so repeated runs hit the same files.
        let mut sorted = scan::sort_paths(&dirs);
        let ghost stack = self.stack@;
        let ghost tail = sorted@;
        self.stack.append(&mut sorted);
        assert(scan::strings(stack + tail) == scan::strings(stack) + scan::strings(tail));
    }

    /// The files that were found: in path order where the whole tree was read, and as they came
    /// where the search ended before.
    pub fn finish(self) -> (r: Vec<String>)
        ensures
            scan::strings(r@) == (if self@.full {
                self@.found
            } else {
                scan::sorted_paths(self@.found)
            }),
    {
        if self.full {
            self.found
        } else {
            scan::sort_paths(&self.found)
        }
    }
}

/// A search never finds more than it was asked for, or one file where it was asked for none; and
/// it is only given up early when it has found that many.
pub proof fn law_search_stops_at_the_limit(s: SearchFacts, items: Seq<ItemFacts>)
    requires
        !s.full,
        s.found.len() < s.limit || s.found.len() == 0,
    ensures
        ({
            let t = s.after(items);
            &&& t.found.len() <= s.limit || t.found.len() == 1
            &&& t.full ==> t.found.len() == s.found.len() + s.room()
            &&& !t.full ==> t.found.len() < s.limit || t.found.len() == 0
        }),
{
}

/// The texts differ in nothing but the case of ASCII letters, character by character: the same
/// character, or a capital and the small letter 32 code points behind it.
pub open spec fn same_but_for_case(a: Seq<char>, b: Seq<char>) -> bool {
    a.len() == b.len() && forall|i: int|
        0 <= i < a.len() ==> {
            let (c, d) = (#[trigger] a[i] as int, b[i] as int);
            c == d || (65 <= c <= 90 && d == c + 32) || (65 <= d <= 90 && c == d + 32)
        }
}

proof fn lemma_same_letter(c: char, d: char)
    ensures
        scan::lower(c) == scan::lower(d) <==> c as int == d as int || (65 <= c as int <= 90
            && d as int == c as int + 32) || (65 <= d as int <= 90 && c as int == d as int + 32),
{
    scan::lemma_lower(c);
    scan::lemma_lower(d);
}

proof fn lemma_matching(items: Seq<ItemFacts>, ext: Seq<char>, p: Seq<char>)
    ensures
        matching(items, ext).contains(p) <==> exists|i: int|
            0 <= i < items.len() && !(#[trigger] items[i]).is_dir && items[i].path == p
                && has_extension(p, ext),
    decreases items.len(),
{
    if items.len() > 0 {
        let init = items.drop_last();
        lemma_matching(init, ext, p);
        let (m, all) = (matching(init, ext), matching(items, ext));
        let last = items.len() - 1;
        assert(forall|i: int| 0 <= i < init.len() ==> #[trigger] init[i] == items[i]);
        if all.contains(p) {
            let k = choose|k: int| 0 <= k < all.len() && all[k] == p;
            if k < m.len() {
                assert(m[k] == p);
                let i = choose|i: int|
                    0 <= i < init.len() && !(#[trigger] init[i]).is_dir && init[i].path == p
                        && has_extension(p, ext);
                assert(items[i] == init[i]);
            } else {
                assert(items[last].path == p);
            }
        }
        if exists|i: int|
            0 <= i < items.len() && !(#[trigger] items[i]).is_dir && items[i].path == p
                && has_extension(p, ext) {
            let i = choose|i: int|
                0 <= i < items.len() && !(#[trigger] items[i]).is_dir && items[i].path == p
                    && has_extension(p, ext);
            if i < last {
                assert(init[i] == items[i]);
                let k = choose|k: int| 0 <= k < m.len() && m[k] == p;
                assert(all[k] == p);
            } else {
                assert(all[m.len() as int] == p);
            }
        }
    }
}

proof fn lemma_subdirs(items: Seq<ItemFacts>, p: Seq<char>)
    ensures
        subdirs(items).contains(p) <==> exists|i: int|
            0 <= i < items.len() && (#[trigger] items[i]).is_dir && items[i].path == p,
    decreases items.len(),
{
    if items.len() > 0 {
        let init = items.drop_last();
        lemma_subdirs(init, p);
        let (m, all) = (subdirs(init), subdirs(items));
        let last = items.len() - 1;
        assert(forall|i: int| 0 <= i < init.len() ==> #[trigger] init[i] == items[i]);
        if all.contains(p) {
            let k = choose|k: int| 0 <= k < all.len() && all[k] == p;
            if k < m.len() {
                assert(m[k] == p);
                let i = choose|i: int|
                    0 <= i < init.len() && (#[trigger] init[i]).is_dir && init[i].path == p;
                assert(items[i] == init[i]);
            } else {
                assert(items[last].path == p);
            }
        }
        if exists|i: int| 0 <= i < items.len() && (#[trigger] items[i]).is_dir && items[i].path == p {
            let i = choose|i: int|
                0 <= i < items.len() && (#[trigger] items[i]).is_dir && items[i].path == p;
            if i < last {
                assert(init[i] == items[i]);
                let k = choose|k: int| 0 <= k < m.len() && m[k] == p;
                assert(all[k] == p);
            } else {
                assert(all[m.len() as int] == p);
            }
        }
    }
}

/// While there is room, reading a directory finds every file in it that has the extension, in
/// whatever case, and no other; what was found before stays, and its subdirectories are searched
/// too.
pub proof fn law_every_match_is_found(
    s: SearchFacts,
    items: Seq<ItemFacts>,
    i: int,
    dir: Seq<char>,
    base: Seq<char>,
    ext: Seq<char>,
)
    requires
        !s.full,
        !s.after(items).full,
        0 <= i < items.len(),
        base.len() > 0,
        path::is_name(base + seq!['.'] + ext),
        forall|k: int| 0 <= k < ext.len() ==> #[trigger] ext[k] != '.',
        items[i].path == dir + seq!['/'] + (base + seq!['.'] + ext),
    ensures
        ({
            let t = s.after(items);
            &&& t.ext == s.ext && t.limit == s.limit
            &&& t.found.take(s.found.len() as int) == s.found
            &&& t.pending.take(s.pending.len() as int) == s.pending
            &&& !items[i].is_dir && same_but_for_case(ext, s.ext) ==> t.found.skip(
                s.found.len() as int,
            ).contains(items[i].path)
            &&& !same_but_for_case(ext, s.ext) ==> !t.found.skip(s.found.len() as int).contains(
                items[i].path,
            )
            &&& items[i].is_dir ==> t.pending.skip(s.pending.len() as int).contains(items[i].path)
        }),
{
    broadcast use vstd::seq_lib::group_to_multiset_ensures;

    let t = s.after(items);
    let p = items[i].path;
    let m = matching(items, s.ext);
    path::law_extension_follows_the_last_dot(dir, base, ext);
    assert(has_extension(p, s.ext) <==> same_but_for_case(ext, s.ext)) by {
        assert forall|k: int| 0 <= k < ext.len() && ext.len() == s.ext.len() implies (scan::lower(
            #[trigger] ext[k],
        ) == scan::lower(s.ext[k]) <==> ext[k] as int == s.ext[k] as int || (65 <= ext[k] as int
            <= 90 && s.ext[k] as int == ext[k] as int + 32) || (65 <= s.ext[k] as int <= 90
            && ext[k] as int == s.ext[k] as int + 32)) by {
            lemma_same_letter(ext[k], s.ext[k]);
        }
    }
    lemma_matching(items, s.ext, p);
    lemma_subdirs(items, p);
    let d = subdirs(items);
    assert(t.found.skip(s.found.len() as int) == m);
    assert(t.found.take(s.found.len() as int) == s.found);
    let sorted = scan::sorted_paths(d);
    assert(t.pending.skip(s.pending.len() as int) == sorted);
    assert(t.pending.take(s.pending.len() as int) == s.pending);
    if items[i].is_dir {
        scan::law_sorting_paths_keeps_them(d);
        assert(d.contains(p));
        assert(d.to_multiset().count(p) > 0);
        assert(sorted.to_multiset().count(p) > 0);
    }
}

/// The search is over once it has found as many files as it was to find, and not before: however
/// many there are, it takes the first of them. A search for none finds one.
pub proof fn law_search_takes_as_many_as_it_should(s: SearchFacts, items: Seq<ItemFacts>)
    requires
        !s.full,
        s.found.len() < s.limit || (s.limit == 0 && s.found.len() == 0),
    ensures
        ({
            let t = s.after(items);
            let wanted = if s.limit == 0 {
                1
            } else {
                s.limit as int
            };
            &&& t.found.len() <= wanted
            &&& t.full <==> t.found.len() == wanted
            &&& s.found.is_prefix_of(t.found)
            &&& (SearchFacts { full: true, ..s }).after(items).found == s.found
        }),
{
    let t = s.after(items);
    assert(s.found == t.found.subrange(0, s.found.len() as int));
}

} // verus!

//! The tree of directories and groups beside the list of groups that navigation goes by: how a
//! deleted group leaves both, and how a group is found again.
use vstd::prelude::*;
use crate::path;
use crate::scan;
use crate::scan::{DirFacts, DirNode, Group, GroupFacts, ListingFacts};
use crate::text;

verus! {

/// The directory that a delete leaves behind, without the group of that stem.
pub open spec fn without_stem(groups: Seq<GroupFacts>, stem: Seq<char>) -> Seq<GroupFacts> {
    groups.filter(|g: GroupFacts| g.stem != stem)
}

/// The first directory from `k` on with the path `dir`, or the number of directories.
pub open spec fn dir_from(dirs: Seq<DirFacts>, dir: Seq<char>, k: int) -> int
    decreases dirs.len() - k,
{
    if k < 0 || k >= dirs.len() {
        dirs.len() as int
    } else if path::canonical(dirs[k].path) == path::canonical(dir) {
        k
    } else {
        dir_from(dirs, dir, k + 1)
    }
}

/// The tree once the group of that directory and stem is gone, with no directory left empty.
pub open spec fn pruned(dirs: Seq<DirFacts>, dir: Seq<char>, stem: Seq<char>) -> Seq<DirFacts> {
    let k = dir_from(dirs, dir, 0);
    let rest = if k < dirs.len() {
        dirs.update(
            k,
            DirFacts { groups: without_stem(dirs[k].groups, stem), path: dirs[k].path },
        )
    } else {
        dirs
    };
    rest.filter(|d: DirFacts| d.groups.len() > 0)
}

/// The first group from `k` on in that directory and with that stem, or the number of groups.
pub open spec fn group_from(
    groups: Seq<GroupFacts>,
    dir: Seq<char>,
    stem: Seq<char>,
    k: int,
) -> int
    decreases groups.len() - k,
{
    if k < 0 || k >= groups.len() {
        groups.len() as int
    } else if path::canonical(groups[k].dir) == path::canonical(dir) && groups[k].stem == stem {
        k
    } else {
        group_from(groups, dir, stem, k + 1)
    }
}

proof fn lemma_filter_push<T>(s: Seq<T>, x: T, keep: spec_fn(T) -> bool)
    ensures
        s.push(x).filter(keep) == (if keep(x) {
            s.filter(keep).push(x)
        } else {
            s.filter(keep)
        }),
{
    reveal(Seq::filter);
    assert(s.push(x).drop_last() == s);
}

fn same_text(a: &String, b: &String) -> (r: bool)
    ensures
        r == (a@ == b@),
{
    *a == *b
}

fn same_path(a: &String, b: &String) -> (r: bool)
    ensures
        r == (path::canonical(a@) == path::canonical(b@)),
{
    let a = path::canonical_text(a.as_str());
    let b = path::canonical_text(b.as_str());
    same_text(&a, &b)
}

fn drop_stem(groups: Vec<Group>, stem: &String) -> (r: Vec<Group>)
    ensures
        scan::group_facts(r@) == without_stem(scan::group_facts(groups@), stem@),
{
    let mut r: Vec<Group> = Vec::new();
    let ghost facts = scan::group_facts(groups@);
    let ghost all = groups@;
    let ghost keep = |g: GroupFacts| g.stem != stem@;
    proof {
        reveal(Seq::filter);
        assert(scan::group_facts(r@) == facts.take(0).filter(keep));
    }
    for g in it: groups
        invariant
            it.seq() == all,
            facts == scan::group_facts(all),
            keep == |g: GroupFacts| g.stem != stem@,
            scan::group_facts(r@) == facts.take(it.index() as int).filter(keep),
    {
        let ghost i = it.index() as int;
        let ghost before = r@;
        let ghost new = g@;
        assert(facts[i] == new);
        assert(facts.take(i + 1) == facts.take(i).push(new));
        proof {
            lemma_filter_push(facts.take(i), new, keep);
        }
        if !same_text(&g.stem, stem) {
            r.push(g);
            assert(scan::group_facts(r@) == scan::group_facts(before).push(new));
        }
    }
    assert(facts.take(facts.len() as int) == facts);
    r
}

fn drop_empty(dirs: Vec<DirNode>) -> (r: Vec<DirNode>)
    ensures
        scan::dir_facts(r@) == scan::dir_facts(dirs@).filter(|d: DirFacts| d.groups.len() > 0),
{
    let mut r: Vec<DirNode> = Vec::new();
    let ghost facts = scan::dir_facts(dirs@);
    let ghost all = dirs@;
    let ghost keep = |d: DirFacts| d.groups.len() > 0;
    proof {
        reveal(Seq::filter);
        assert(scan::dir_facts(r@) == facts.take(0).filter(keep));
    }
    for d in it: dirs
        invariant
            it.seq() == all,
            facts == scan::dir_facts(all),
            keep == |d: DirFacts| d.groups.len() > 0,
            scan::dir_facts(r@) == facts.take(it.index() as int).filter(keep),
    {
        let ghost i = it.index() as int;
        let ghost before = r@;
        let ghost new = d@;
        assert(facts[i] == new);
        assert(facts.take(i + 1) == facts.take(i).push(new));
        proof {
            lemma_filter_push(facts.take(i), new, keep);
        }
        if d.groups.len() > 0 {
            r.push(d);
            assert(scan::dir_facts(r@) == scan::dir_facts(before).push(new));
        }
    }
    assert(facts.take(facts.len() as int) == facts);
    r
}

/// The tree once the group of that directory and stem is gone.
pub fn prune(dirs: Vec<DirNode>, dir: &String, stem: &String) -> (r: Vec<DirNode>)
    ensures
        scan::dir_facts(r@) == pruned(scan::dir_facts(dirs@), dir@, stem@),
{
    let ghost facts = scan::dir_facts(dirs@);
    let mut dirs = dirs;
    let mut k: usize = 0;
    while k < dirs.len() && !same_path(&dirs[k].path, dir)
        invariant
            facts == scan::dir_facts(dirs@),
            k <= dirs@.len(),
            dir_from(facts, dir@, 0) == dir_from(facts, dir@, k as int),
        decreases dirs@.len() - k,
    {
        assert(facts[k as int].path == dirs@[k as int].path@);
        k = k + 1;
    }
    if k < dirs.len() {
        assert(facts[k as int].path == dirs@[k as int].path@);
        let ghost before = dirs@;
        let node = dirs.remove(k);
        let ghost was = node@;
        assert(was == facts[k as int]);
        let left = DirNode { path: node.path, groups: drop_stem(node.groups, stem) };
        let ghost new = left@;
        dirs.insert(k, left);
        assert(scan::dir_facts(dirs@) == facts.update(k as int, new));
    }
    drop_empty(dirs)
}

/// The first group in that directory and with that stem, or the number of groups.
pub fn find_group(groups: &Vec<Group>, dir: &String, stem: &String) -> (k: usize)
    ensures
        k == group_from(scan::group_facts(groups@), dir@, stem@, 0),
        k <= groups@.len(),
{
    let ghost facts = scan::group_facts(groups@);
    let mut k: usize = 0;
    while k < groups.len() && !(same_path(&groups[k].dir, dir) && same_text(&groups[k].stem, stem))
        invariant
            facts == scan::group_facts(groups@),
            k <= groups@.len(),
            group_from(facts, dir@, stem@, 0) == group_from(facts, dir@, stem@, k as int),
        decreases groups@.len() - k,
    {
        assert(facts[k as int] == groups@[k as int]@);
        k = k + 1;
    }
    if k < groups.len() {
        assert(facts[k as int] == groups@[k as int]@);
    }
    k
}

/// Each group lies in its directory, no two groups of a directory share a stem, and no directory
/// stands twice.
pub open spec fn tidy(dirs: Seq<DirFacts>) -> bool {
    &&& forall|k: int, i: int|
        0 <= k < dirs.len() && 0 <= i < dirs[k].groups.len() ==> (#[trigger] dirs[k].groups[i]).dir
            == dirs[k].path
    &&& forall|k: int, i: int, j: int|
        0 <= k < dirs.len() && 0 <= i < j < dirs[k].groups.len() ==> (
        #[trigger] dirs[k].groups[i]).stem != (#[trigger] dirs[k].groups[j]).stem
    &&& forall|i: int, j: int|
        0 <= i < j < dirs.len() ==> path::canonical((#[trigger] dirs[i]).path) != path::canonical(
            (#[trigger] dirs[j]).path,
        )
}

proof fn lemma_dir_from(dirs: Seq<DirFacts>, dir: Seq<char>, from: int, k: int)
    requires
        0 <= from <= k < dirs.len(),
        path::canonical(dirs[k].path) == path::canonical(dir),
        forall|i: int|
            from <= i < k ==> path::canonical((#[trigger] dirs[i]).path) != path::canonical(dir),
    ensures
        dir_from(dirs, dir, from) == k,
    decreases k - from,
{
    if from < k {
        lemma_dir_from(dirs, dir, from + 1, k);
    }
}

proof fn lemma_filter_all<T>(s: Seq<T>, keep: spec_fn(T) -> bool)
    requires
        forall|i: int| 0 <= i < s.len() ==> keep(#[trigger] s[i]),
    ensures
        s.filter(keep) == s,
    decreases s.len(),
{
    reveal(Seq::filter);
    if s.len() > 0 {
        let init = s.drop_last();
        assert forall|i: int| 0 <= i < init.len() implies keep(#[trigger] init[i]) by {
            assert(init[i] == s[i]);
        }
        lemma_filter_all(init, keep);
        assert(init.push(s.last()) == s);
    }
}

proof fn lemma_without_stem(groups: Seq<GroupFacts>, at: int)
    requires
        0 <= at < groups.len(),
        forall|i: int, j: int|
            0 <= i < j < groups.len() ==> (#[trigger] groups[i]).stem != (
            #[trigger] groups[j]).stem,
    ensures
        without_stem(groups, groups[at].stem) == groups.remove(at),
    decreases groups.len(),
{
    let stem = groups[at].stem;
    let keep = |g: GroupFacts| g.stem != stem;
    let init = groups.drop_last();
    assert(init.push(groups.last()) == groups);
    lemma_filter_push(init, groups.last(), keep);
    if at == groups.len() - 1 {
        assert forall|i: int| 0 <= i < init.len() implies keep(#[trigger] init[i]) by {
            assert(init[i] == groups[i]);
        }
        lemma_filter_all(init, keep);
        assert(groups.remove(at) == init);
    } else {
        assert(init[at] == groups[at]);
        lemma_without_stem(init, at);
        assert(groups.remove(at) == init.remove(at).push(groups.last()));
        assert(groups.last().stem != stem);
    }
}

proof fn lemma_flat_nonempty(dirs: Seq<DirFacts>)
    ensures
        scan::flat(dirs.filter(|d: DirFacts| d.groups.len() > 0)) == scan::flat(dirs),
    decreases dirs.len(),
{
    let keep = |d: DirFacts| d.groups.len() > 0;
    reveal(Seq::filter);
    if dirs.len() > 0 {
        let init = dirs.drop_last();
        lemma_flat_nonempty(init);
        assert(init.push(dirs.last()) == dirs);
        lemma_filter_push(init, dirs.last(), keep);
        let kept = init.filter(keep);
        if keep(dirs.last()) {
            assert(kept.push(dirs.last()).drop_last() == kept);
        } else {
            assert(scan::flat(init) + dirs.last().groups == scan::flat(init));
        }
    }
}

/// The tree with the group at `at` of directory `k` taken out.
spec fn cut(dirs: Seq<DirFacts>, k: int, at: int) -> Seq<DirFacts> {
    dirs.update(k, DirFacts { path: dirs[k].path, groups: dirs[k].groups.remove(at) })
}

/// Where the group at `index` of the list stands in the tree.
proof fn lemma_locate(dirs: Seq<DirFacts>, index: int) -> (r: (int, int))
    requires
        0 <= index < scan::flat(dirs).len(),
    ensures
        0 <= r.0 < dirs.len(),
        0 <= r.1 < dirs[r.0].groups.len(),
        dirs[r.0].groups[r.1] == scan::flat(dirs)[index],
        scan::flat(cut(dirs, r.0, r.1)) == scan::flat(dirs).remove(index),
    decreases dirs.len(),
{
    let init = dirs.drop_last();
    let head = scan::flat(init);
    let last = dirs.last();
    assert(scan::flat(dirs) == head + last.groups);
    if index < head.len() {
        let (k, at) = lemma_locate(init, index);
        let c = cut(dirs, k, at);
        assert(c.drop_last() == cut(init, k, at));
        assert(c.last() == last);
        assert(scan::flat(dirs).remove(index) == head.remove(index) + last.groups);
        (k, at)
    } else {
        let at = index - head.len();
        let k = dirs.len() - 1;
        let c = cut(dirs, k, at);
        assert(c.drop_last() == init);
        assert(scan::flat(dirs).remove(index) == head + last.groups.remove(at));
        (k, at)
    }
}

/// A deleted group leaves the tree and the list alike: the list stays the tree flattened, and
/// the tree stays tidy.
pub proof fn law_tree_stays_in_step(dirs: Seq<DirFacts>, index: int)
    requires
        tidy(dirs),
        0 <= index < scan::flat(dirs).len(),
    ensures
        ({
            let g = scan::flat(dirs)[index];
            let left = pruned(dirs, g.dir, g.stem);
            &&& scan::flat(left) == scan::flat(dirs).remove(index)
            &&& tidy(left)
            &&& forall|k: int| 0 <= k < left.len() ==> (#[trigger] left[k]).groups.len() > 0
        }),
{
    let g = scan::flat(dirs)[index];
    let (k, at) = lemma_locate(dirs, index);
    assert(dirs[k].groups[at].dir == dirs[k].path);
    assert forall|i: int| 0 <= i < k implies path::canonical((#[trigger] dirs[i]).path)
        != path::canonical(g.dir) by {
        assert(path::canonical(dirs[i].path) != path::canonical(dirs[k].path));
    }
    lemma_dir_from(dirs, g.dir, 0, k);
    let groups = dirs[k].groups;
    assert forall|i: int, j: int| 0 <= i < j < groups.len() implies (#[trigger] groups[i]).stem != (
    #[trigger] groups[j]).stem by {
        assert(dirs[k].groups[i].stem != dirs[k].groups[j].stem);
    }
    lemma_without_stem(groups, at);
    let c = cut(dirs, k, at);
    let keep = |d: DirFacts| d.groups.len() > 0;
    assert(pruned(dirs, g.dir, g.stem) == c.filter(keep));
    lemma_flat_nonempty(c);
    assert(tidy(c)) by {
        assert forall|m: int, i: int|
            0 <= m < c.len() && 0 <= i < c[m].groups.len() implies (
        #[trigger] c[m].groups[i]).dir == c[m].path by {
            if m == k {
                let n = if i < at { i } else { i + 1 };
                assert(c[m].groups[i] == dirs[k].groups[n]);
            } else {
                assert(dirs[m].groups[i].dir == dirs[m].path);
            }
        }
        assert forall|m: int, i: int, j: int|
            0 <= m < c.len() && 0 <= i < j < c[m].groups.len() implies (
        #[trigger] c[m].groups[i]).stem != (#[trigger] c[m].groups[j]).stem by {
            if m == k {
                let n = if i < at { i } else { i + 1 };
                let o = if j < at { j } else { j + 1 };
                assert(c[m].groups[i] == dirs[k].groups[n]);
                assert(c[m].groups[j] == dirs[k].groups[o]);
            } else {
                assert(dirs[m].groups[i].stem != dirs[m].groups[j].stem);
            }
        }
        assert forall|i: int, j: int| 0 <= i < j < c.len() implies path::canonical(
            (#[trigger] c[i]).path,
        ) != path::canonical((#[trigger] c[j]).path) by {
            assert(path::canonical(dirs[i].path) != path::canonical(dirs[j].path));
        }
    }
    lemma_tidy_filter(c, keep);
}

proof fn lemma_tidy_filter(dirs: Seq<DirFacts>, keep: spec_fn(DirFacts) -> bool)
    requires
        tidy(dirs),
    ensures
        tidy(dirs.filter(keep)),
        forall|k: int|
            0 <= k < dirs.filter(keep).len() ==> keep(#[trigger] dirs.filter(keep)[k]),
        forall|k: int|
            0 <= k < dirs.filter(keep).len() ==> dirs.contains(#[trigger] dirs.filter(keep)[k]),
    decreases dirs.len(),
{
    reveal(Seq::filter);
    let kept = dirs.filter(keep);
    if dirs.len() > 0 {
        let init = dirs.drop_last();
        let n = dirs.len() - 1;
        let last = dirs[n];
        lemma_tidy_init(dirs);
        lemma_tidy_filter(init, keep);
        let head = init.filter(keep);
        assert(init.push(last) == dirs);
        lemma_filter_push(init, last, keep);
        assert forall|k: int| 0 <= k < kept.len() implies dirs.contains(#[trigger] kept[k]) by {
            if k < head.len() {
                assert(init.contains(head[k]));
                let m = choose|m: int| 0 <= m < init.len() && init[m] == head[k];
                assert(dirs[m] == kept[k]);
            } else {
                assert(dirs[n] == kept[k]);
            }
        }
        if keep(last) {
            assert(fits(head, last)) by {
                assert forall|i: int| 0 <= i < last.groups.len() implies (
                #[trigger] last.groups[i]).dir == last.path by {
                    assert(dirs[n].groups[i].dir == dirs[n].path);
                }
                assert forall|i: int, j: int| 0 <= i < j < last.groups.len() implies (
                #[trigger] last.groups[i]).stem != (#[trigger] last.groups[j]).stem by {
                    assert(dirs[n].groups[i].stem != dirs[n].groups[j].stem);
                }
                assert forall|k: int| 0 <= k < head.len() implies path::canonical(
                    (#[trigger] head[k]).path,
                ) != path::canonical(last.path) by {
                    assert(init.contains(head[k]));
                    let m = choose|m: int| 0 <= m < init.len() && init[m] == head[k];
                    assert(path::canonical(dirs[m].path) != path::canonical(dirs[n].path));
                }
            }
            lemma_tidy_push(head, last);
        }
    }
}

/// `d` can stand beside `ds` in a tidy tree.
spec fn fits(ds: Seq<DirFacts>, d: DirFacts) -> bool {
    &&& forall|i: int| 0 <= i < d.groups.len() ==> (#[trigger] d.groups[i]).dir == d.path
    &&& forall|i: int, j: int|
        0 <= i < j < d.groups.len() ==> (#[trigger] d.groups[i]).stem != (
        #[trigger] d.groups[j]).stem
    &&& forall|k: int|
        0 <= k < ds.len() ==> path::canonical((#[trigger] ds[k]).path) != path::canonical(d.path)
}

proof fn lemma_tidy_push(ds: Seq<DirFacts>, d: DirFacts)
    requires
        tidy(ds),
        fits(ds, d),
    ensures
        tidy(ds.push(d)),
{
    let all = ds.push(d);
    assert forall|k: int, i: int| 0 <= k < all.len() && 0 <= i < all[k].groups.len() implies (
    #[trigger] all[k].groups[i]).dir == all[k].path by {
        if k < ds.len() {
            assert(ds[k].groups[i].dir == ds[k].path);
        }
    }
    assert forall|k: int, i: int, j: int|
        0 <= k < all.len() && 0 <= i < j < all[k].groups.len() implies (
    #[trigger] all[k].groups[i]).stem != (#[trigger] all[k].groups[j]).stem by {
        if k < ds.len() {
            assert(ds[k].groups[i].stem != ds[k].groups[j].stem);
        }
    }
    assert forall|i: int, j: int| 0 <= i < j < all.len() implies path::canonical(
        (#[trigger] all[i]).path,
    ) != path::canonical((#[trigger] all[j]).path) by {
        if j < ds.len() {
            assert(path::canonical(ds[i].path) != path::canonical(ds[j].path));
        } else {
            assert(path::canonical(ds[i].path) != path::canonical(d.path));
        }
    }
}

proof fn lemma_tidy_insert(ds: Seq<DirFacts>, d: DirFacts)
    requires
        tidy(ds),
        fits(ds, d),
    ensures
        tidy(scan::insert_dir(ds, d)),
        forall|k: int|
            0 <= k < scan::insert_dir(ds, d).len() ==> (#[trigger] scan::insert_dir(ds, d)[k]) == d
                || ds.contains(scan::insert_dir(ds, d)[k]),
    decreases ds.len(),
{
    let out = scan::insert_dir(ds, d);
    if ds.len() > 0 && scan::path_before(d.path, ds.last().path) {
        let init = ds.drop_last();
        let last = ds.last();
        lemma_tidy_init(ds);
        assert forall|k: int| 0 <= k < init.len() implies path::canonical((#[trigger] init[k]).path)
            != path::canonical(d.path) by {
            assert(init[k] == ds[k]);
        }
        lemma_tidy_insert(init, d);
        let head = scan::insert_dir(init, d);
        assert(fits(head, last)) by {
            let n = ds.len() - 1;
            assert forall|i: int| 0 <= i < last.groups.len() implies (
            #[trigger] last.groups[i]).dir == last.path by {
                assert(ds[n].groups[i].dir == ds[n].path);
            }
            assert forall|i: int, j: int| 0 <= i < j < last.groups.len() implies (
            #[trigger] last.groups[i]).stem != (#[trigger] last.groups[j]).stem by {
                assert(ds[n].groups[i].stem != ds[n].groups[j].stem);
            }
            assert forall|k: int| 0 <= k < head.len() implies path::canonical(
                (#[trigger] head[k]).path,
            ) != path::canonical(last.path) by {
                assert(path::canonical(ds[n].path) != path::canonical(d.path));
                if head[k] != d {
                    assert(init.contains(head[k]));
                    let m = choose|m: int| 0 <= m < init.len() && init[m] == head[k];
                    assert(path::canonical(ds[m].path) != path::canonical(ds[n].path));
                }
            }
        }
        lemma_tidy_push(head, last);
        assert forall|k: int| 0 <= k < out.len() implies (#[trigger] out[k]) == d || ds.contains(
            out[k],
        ) by {
            if k < head.len() {
                assert(out[k] == head[k]);
                if head[k] != d {
                    assert(init.contains(head[k]));
                    let m = choose|m: int| 0 <= m < init.len() && init[m] == head[k];
                    assert(ds[m] == out[k]);
                }
            } else {
                assert(ds[ds.len() - 1] == out[k]);
            }
        }
    } else {
        lemma_tidy_push(ds, d);
        assert forall|k: int| 0 <= k < out.len() implies (#[trigger] out[k]) == d || ds.contains(
            out[k],
        ) by {
            if k < ds.len() {
                assert(ds[k] == out[k]);
            }
        }
    }
}

proof fn lemma_tidy_init(dirs: Seq<DirFacts>)
    requires
        tidy(dirs),
        dirs.len() > 0,
    ensures
        tidy(dirs.drop_last()),
{
    let init = dirs.drop_last();
    assert forall|k: int, i: int| 0 <= k < init.len() && 0 <= i < init[k].groups.len() implies (
    #[trigger] init[k].groups[i]).dir == init[k].path by {
        assert(dirs[k].groups[i].dir == dirs[k].path);
    }
    assert forall|k: int, i: int, j: int|
        0 <= k < init.len() && 0 <= i < j < init[k].groups.len() implies (
    #[trigger] init[k].groups[i]).stem != (#[trigger] init[k].groups[j]).stem by {
        assert(dirs[k].groups[i].stem != dirs[k].groups[j].stem);
    }
}

proof fn lemma_dirs_tidy(ls: Seq<ListingFacts>, gs: Seq<Seq<GroupFacts>>)
    requires
        scan::all_grouped(ls, gs),
        forall|i: int, j: int|
            0 <= i < j < ls.len() ==> path::canonical((#[trigger] ls[i]).dir) != path::canonical(
                (#[trigger] ls[j]).dir,
            ),
    ensures
        tidy(scan::dirs_of(ls, gs)),
        forall|k: int|
            0 <= k < scan::dirs_of(ls, gs).len() ==> exists|i: int|
                0 <= i < ls.len() && (#[trigger] ls[i]).dir == (
                #[trigger] scan::dirs_of(ls, gs)[k]).path,
    decreases ls.len(),
{
    let out = scan::dirs_of(ls, gs);
    if ls.len() > 0 {
        let li = ls.drop_last();
        let gi = gs.drop_last();
        assert forall|i: int| 0 <= i < li.len() implies scan::grouped(
            (#[trigger] li[i]).dir,
            li[i].files,
            gi[i],
        ) by {
            assert(li[i] == ls[i]);
        }
        lemma_dirs_tidy(li, gi);
        let ds = scan::dirs_of(li, gi);
        let n = ls.len() - 1;
        let l = ls[n];
        let d = DirFacts { path: l.dir, groups: gs[n] };
        assert(scan::grouped(l.dir, l.files, gs[n]));
        assert(fits(ds, d)) by {
            assert forall|i: int, j: int| 0 <= i < j < d.groups.len() implies (
            #[trigger] d.groups[i]).stem != (#[trigger] d.groups[j]).stem by {
                text::lemma_before_order(
                    text::codes(d.groups[i].stem),
                    text::codes(d.groups[j].stem),
                    text::codes(d.groups[i].stem),
                );
            }
            assert forall|k: int| 0 <= k < ds.len() implies path::canonical((#[trigger] ds[k]).path)
                != path::canonical(d.path) by {
                let i = choose|i: int|
                    0 <= i < li.len() && (#[trigger] li[i]).dir == ds[k].path;
                assert(path::canonical(ls[i].dir) != path::canonical(ls[n].dir));
            }
        }
        if gs.last().len() > 0 {
            lemma_tidy_insert(ds, d);
        }
        assert forall|k: int| 0 <= k < out.len() implies exists|i: int|
            0 <= i < ls.len() && (#[trigger] ls[i]).dir == (#[trigger] out[k]).path by {
            if out[k] == d {
                assert(ls[n].dir == out[k].path);
            } else {
                assert(ds.contains(out[k]));
                let m = choose|m: int| 0 <= m < ds.len() && ds[m] == out[k];
                let i = choose|i: int|
                    0 <= i < li.len() && (#[trigger] li[i]).dir == ds[m].path;
                assert(ls[i].dir == out[k].path);
            }
        }
    }
}

/// A scan that lists no directory twice gives a tidy tree.
pub proof fn law_scan_is_tidy(ls: Seq<ListingFacts>, ds: Seq<DirFacts>)
    requires
        scan::scanned(ls, ds),
        forall|i: int, j: int|
            0 <= i < j < ls.len() ==> path::canonical((#[trigger] ls[i]).dir) != path::canonical(
                (#[trigger] ls[j]).dir,
            ),
    ensures
        tidy(ds),
{
    let gs = choose|gs: Seq<Seq<GroupFacts>>|
        scan::all_grouped(ls, gs) && ds == #[trigger] scan::dirs_of(ls, gs);
    lemma_dirs_tidy(ls, gs);
}

/// The directories of a scan stand in strictly increasing path order, where none was listed
/// twice.
pub proof fn law_directories_strictly_increase(ls: Seq<ListingFacts>, ds: Seq<DirFacts>)
    requires
        scan::scanned(ls, ds),
        forall|i: int, j: int|
            0 <= i < j < ls.len() ==> path::canonical((#[trigger] ls[i]).dir) != path::canonical(
                (#[trigger] ls[j]).dir,
            ),
    ensures
        forall|i: int, j: int|
            0 <= i < j < ds.len() ==> scan::path_before(
                (#[trigger] ds[i]).path,
                (#[trigger] ds[j]).path,
            ),
{
    law_scan_is_tidy(ls, ds);
    scan::law_scan_is_sorted(ls, ds);
    assert forall|i: int, j: int| 0 <= i < j < ds.len() implies scan::path_before(
        (#[trigger] ds[i]).path,
        (#[trigger] ds[j]).path,
    ) by {
        let (a, b) = (path::path_key(ds[i].path), path::path_key(ds[j].path));
        text::lemma_before_total(a, b);
        if a == b {
            path::law_sort_keys_tell_paths_apart(ds[i].path, ds[j].path);
        }
    }
}

/// A group that is still there is found again.
pub proof fn law_group_is_found_again(
    groups: Seq<GroupFacts>,
    dir: Seq<char>,
    stem: Seq<char>,
    k: int,
)
    requires
        0 <= k < groups.len(),
        path::canonical(groups[k].dir) == path::canonical(dir),
        groups[k].stem == stem,
    ensures
        ({
            let at = group_from(groups, dir, stem, 0);
            &&& 0 <= at <= k
            &&& path::canonical(groups[at].dir) == path::canonical(dir)
            &&& groups[at].stem == stem
        }),
{
    lemma_group_from(groups, dir, stem, 0, k);
}

proof fn lemma_group_from(
    groups: Seq<GroupFacts>,
    dir: Seq<char>,
    stem: Seq<char>,
    from: int,
    k: int,
)
    requires
        0 <= from <= k < groups.len(),
        path::canonical(groups[k].dir) == path::canonical(dir),
        groups[k].stem == stem,
    ensures
        ({
            let at = group_from(groups, dir, stem, from);
            &&& from <= at <= k
            &&& path::canonical(groups[at].dir) == path::canonical(dir)
            &&& groups[at].stem == stem
        }),
    decreases k - from,
{
    if !(path::canonical(groups[from].dir) == path::canonical(dir) && groups[from].stem == stem) {
        lemma_group_from(groups, dir, stem, from + 1, k);
    }
}

/// A group that is not there is not found.
pub proof fn law_missing_group_is_not_found(
    groups: Seq<GroupFacts>,
    dir: Seq<char>,
    stem: Seq<char>,
)
    requires
        forall|k: int|
            0 <= k < groups.len() ==> !((#[trigger] groups[k]).stem == stem && path::canonical(
                groups[k].dir,
            ) == path::canonical(dir)),
    ensures
        group_from(groups, dir, stem, 0) == groups.len(),
{
    lemma_none_from(groups, dir, stem, 0);
}

proof fn lemma_none_from(groups: Seq<GroupFacts>, dir: Seq<char>, stem: Seq<char>, from: int)
    requires
        0 <= from <= groups.len(),
        forall|k: int|
            0 <= k < groups.len() ==> !((#[trigger] groups[k]).stem == stem && path::canonical(
                groups[k].dir,
            ) == path::canonical(dir)),
    ensures
        group_from(groups, dir, stem, from) == groups.len(),
    decreases groups.len() - from,
{
    if from < groups.len() {
        lemma_none_from(groups, dir, stem, from + 1);
    }
}

/// Taking a group out leaves no directory empty, touches no other directory, and takes no other
/// group: what is left was there before, and what was there is left.
pub proof fn law_pruning_touches_nothing_else(
    dirs: Seq<DirFacts>,
    dir: Seq<char>,
    stem: Seq<char>,
    k: int,
    n: int,
)
    requires
        0 <= k < dirs.len(),
    ensures
        0 <= n < pruned(dirs, dir, stem).len() ==> pruned(dirs, dir, stem)[n].groups.len() > 0,
        path::canonical(dirs[k].path) != path::canonical(dir) && dirs[k].groups.len() > 0 ==> pruned(
            dirs,
            dir,
            stem,
        ).contains(dirs[k]),
        (forall|i: int|
            0 <= i < dirs.len() ==> path::canonical((#[trigger] dirs[i]).path) != path::canonical(
                dir,
            )) && (forall|i: int| 0 <= i < dirs.len() ==> (#[trigger] dirs[i]).groups.len() > 0)
            ==> pruned(dirs, dir, stem) == dirs,
{
    let keep = |d: DirFacts| d.groups.len() > 0;
    let at = dir_from(dirs, dir, 0);
    let rest = if at < dirs.len() {
        dirs.update(
            at,
            DirFacts { groups: without_stem(dirs[at].groups, stem), path: dirs[at].path },
        )
    } else {
        dirs
    };
    lemma_dir_at(dirs, dir, 0);
    let out = pruned(dirs, dir, stem);
    assert(out == rest.filter(keep));
    if 0 <= n < out.len() {
        lemma_filter_kept(rest, keep, n);
    }
    if path::canonical(dirs[k].path) != path::canonical(dir) && dirs[k].groups.len() > 0 {
        assert(rest[k] == dirs[k]);
        lemma_filter_holds(rest, keep, k);
    }
    if (forall|i: int|
        0 <= i < dirs.len() ==> path::canonical((#[trigger] dirs[i]).path) != path::canonical(
            dir,
        )) && (forall|i: int| 0 <= i < dirs.len() ==> (#[trigger] dirs[i]).groups.len() > 0) {
        assert(at == dirs.len());
        lemma_filter_all(dirs, keep);
    }
}

proof fn lemma_dir_at(dirs: Seq<DirFacts>, dir: Seq<char>, from: int)
    requires
        0 <= from <= dirs.len(),
    ensures
        from <= dir_from(dirs, dir, from) <= dirs.len(),
        dir_from(dirs, dir, from) < dirs.len() ==> path::canonical(
            dirs[dir_from(dirs, dir, from)].path,
        ) == path::canonical(dir),
    decreases dirs.len() - from,
{
    if from < dirs.len() && path::canonical(dirs[from].path) != path::canonical(dir) {
        lemma_dir_at(dirs, dir, from + 1);
    }
}

proof fn lemma_filter_kept<T>(s: Seq<T>, keep: spec_fn(T) -> bool, n: int)
    requires
        0 <= n < s.filter(keep).len(),
    ensures
        keep(s.filter(keep)[n]),
    decreases s.len(),
{
    reveal(Seq::filter);
    if s.len() > 0 {
        let init = s.drop_last();
        assert(init.push(s.last()) == s);
        lemma_filter_push(init, s.last(), keep);
        if n < init.filter(keep).len() {
            lemma_filter_kept(init, keep, n);
        }
    }
}

proof fn lemma_filter_holds<T>(s: Seq<T>, keep: spec_fn(T) -> bool, k: int)
    requires
        0 <= k < s.len(),
        keep(s[k]),
    ensures
        s.filter(keep).contains(s[k]),
    decreases s.len(),
{
    let init = s.drop_last();
    assert(init.push(s.last()) == s);
    lemma_filter_push(init, s.last(), keep);
    let f = s.filter(keep);
    if k < init.len() {
        lemma_filter_holds(init, keep, k);
        let n = choose|n: int| 0 <= n < init.filter(keep).len() && init.filter(keep)[n] == init[k];
        assert(f[n] == s[k]);
    } else {
        assert(f[f.len() - 1] == s[k]);
    }
}

} // verus!

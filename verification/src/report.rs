//! What a scan found, in figures: for seeing at a glance that files were grouped as they should
//! be.
use vstd::prelude::*;
use crate::scan;
use crate::scan::{Group, GroupFacts, MemberFacts};
use crate::text;

verus! {

/// `v`, in order, with `t` added behind every text that does not sort after it.
pub open spec fn insert_text(v: Seq<Seq<char>>, t: Seq<char>) -> Seq<Seq<char>>
    decreases v.len(),
{
    if v.len() > 0 && text::before(text::codes(t), text::codes(v.last())) {
        insert_text(v.drop_last(), t).push(v.last())
    } else {
        v.push(t)
    }
}

/// The extensions of a group's files, in order.
pub open spec fn extensions(ms: Seq<MemberFacts>) -> Seq<Seq<char>>
    decreases ms.len(),
{
    if ms.len() == 0 {
        Seq::empty()
    } else {
        insert_text(extensions(ms.drop_last()), ms.last().ext)
    }
}

/// Texts joined by a plus sign.
pub open spec fn joined(v: Seq<Seq<char>>) -> Seq<char>
    decreases v.len(),
{
    if v.len() == 0 {
        Seq::empty()
    } else if v.len() == 1 {
        v[0]
    } else {
        joined(v.drop_last()) + "+"@ + v.last()
    }
}

/// The shape of a group: the extensions of its files.
pub open spec fn shape_of(g: GroupFacts) -> Seq<char> {
    joined(extensions(g.members))
}

/// How many of `groups` have the shape `t`.
pub open spec fn count_of(groups: Seq<GroupFacts>, t: Seq<char>) -> nat
    decreases groups.len(),
{
    if groups.len() == 0 {
        0
    } else {
        count_of(groups.drop_last(), t) + if shape_of(groups.last()) == t {
            1nat
        } else {
            0nat
        }
    }
}

/// How many files the groups have.
pub open spec fn files_in(groups: Seq<GroupFacts>) -> nat
    decreases groups.len(),
{
    if groups.len() == 0 {
        0
    } else {
        files_in(groups.drop_last()) + groups.last().members.len()
    }
}

/// How many groups are shown from an embedded preview.
pub open spec fn raw_only_in(groups: Seq<GroupFacts>) -> nat
    decreases groups.len(),
{
    if groups.len() == 0 {
        0
    } else {
        raw_only_in(groups.drop_last()) + if groups.last().is_raw_only() {
            1nat
        } else {
            0nat
        }
    }
}

/// How many groups have nothing to show.
pub open spec fn hidden_in(groups: Seq<GroupFacts>) -> nat
    decreases groups.len(),
{
    if groups.len() == 0 {
        0
    } else {
        hidden_in(groups.drop_last()) + if groups.last().display_path() is None {
            1nat
        } else {
            0nat
        }
    }
}

/// A scan in figures.
pub struct Summary {
    /// Each shape of group and how often it occurs, in the order of the shapes.
    pub shapes: Vec<(String, usize)>,
    pub files: usize,
    /// Groups that are shown via an embedded preview.
    pub raw_only: usize,
    /// Groups with no displayable file.
    pub hidden: usize,
}

/// `shapes` counts the shapes of `groups`, in order.
pub open spec fn counts_shapes(shapes: Seq<(String, usize)>, groups: Seq<GroupFacts>) -> bool {
    &&& forall|i: int|
        0 <= i < shapes.len() ==> (#[trigger] shapes[i]).1 == count_of(groups, shapes[i].0@)
            && shapes[i].1 > 0
    &&& forall|i: int, j: int|
        0 <= i < j < shapes.len() ==> text::before(
            text::codes((#[trigger] shapes[i]).0@),
            text::codes((#[trigger] shapes[j]).0@),
        )
    &&& forall|t: Seq<char>| #[trigger]
        count_of(groups, t) > 0 ==> exists|i: int|
            0 <= i < shapes.len() && (#[trigger] shapes[i]).0@ == t
}

fn codes_of(s: &String) -> (r: Vec<u32>)
    ensures
        r@ == text::codes(s@),
{
    text::to_codes(&text::to_chars(s.as_str()))
}

proof fn lemma_insert_text(v: Seq<Seq<char>>, t: Seq<char>, at: int)
    requires
        0 <= at <= v.len(),
        at > 0 ==> !text::before(text::codes(t), text::codes(v[at - 1])),
        forall|k: int|
            at <= k < v.len() ==> text::before(text::codes(t), text::codes(#[trigger] v[k])),
    ensures
        insert_text(v, t) == v.insert(at, t),
    decreases v.len(),
{
    if at < v.len() {
        assert(text::before(text::codes(t), text::codes(v[v.len() - 1])));
        lemma_insert_text(v.drop_last(), t, at);
        assert(v.drop_last().insert(at, t).push(v.last()) == v.insert(at, t));
    } else {
        assert(v.push(t) == v.insert(at, t));
    }
}

/// The shape of a group, e.g. `arw+jpg`.
pub fn shape(g: &Group) -> (s: String)
    ensures
        s@ == shape_of(g@),
{
    let mut v: Vec<String> = Vec::new();
    let ghost ms = g@.members;
    assert(scan::strings(v@) == extensions(ms.take(0)));
    for i in 0..g.members.len()
        invariant
            ms == g@.members,
            scan::strings(v@) == extensions(ms.take(i as int)),
    {
        let ghost before = scan::strings(v@);
        let e = g.members[i].ext.clone();
        let key = codes_of(&e);
        let mut at: usize = v.len();
        while at > 0 && text::is_before(&key, &codes_of(&v[at - 1]))
            invariant
                at <= v@.len(),
                before == scan::strings(v@),
                key@ == text::codes(e@),
                forall|k: int|
                    at <= k < before.len() ==> text::before(
                        text::codes(e@),
                        text::codes(#[trigger] before[k]),
                    ),
            decreases at,
        {
            at = at - 1;
            assert(before[at as int] == v@[at as int]@);
        }
        let ghost new = e@;
        proof {
            if at > 0 {
                assert(before[at - 1] == v@[at - 1]@);
            }
            lemma_insert_text(before, new, at as int);
            assert(ms.take(i + 1).drop_last() == ms.take(i as int));
            assert(ms.take(i + 1).last() == g.members@[i as int]@);
        }
        v.insert(at, e);
        assert(scan::strings(v@) == before.insert(at as int, new));
    }
    assert(ms.take(ms.len() as int) == ms);
    let ghost all = scan::strings(v@);
    let mut s = String::new();
    for i in 0..v.len()
        invariant
            all == scan::strings(v@),
            s@ == joined(all.take(i as int)),
    {
        let ghost head = all.take(i + 1);
        assert(head.drop_last() == all.take(i as int));
        assert(head.last() == v@[i as int]@);
        if i > 0 {
            s.append("+");
        }
        s.append(v[i].as_str());
        if i == 0 {
            assert(s@ == head[0]);
        }
    }
    assert(all.take(all.len() as int) == all);
    s
}

proof fn lemma_count_grows(groups: Seq<GroupFacts>, g: GroupFacts, t: Seq<char>)
    ensures
        count_of(groups.push(g), t) == count_of(groups, t) + (if shape_of(g) == t {
            1nat
        } else {
            0nat
        }),
        count_of(groups, t) <= groups.len(),
    decreases groups.len(),
{
    assert(groups.push(g).drop_last() == groups);
    if groups.len() > 0 {
        lemma_count_grows(groups.drop_last(), groups.last(), t);
        assert(groups.drop_last().push(groups.last()) == groups);
    }
}

/// Count one more group, of the shape `t`.
fn count_shape(
    shapes: &mut Vec<(String, usize)>,
    t: String,
    Ghost(groups): Ghost<Seq<GroupFacts>>,
    Ghost(g): Ghost<GroupFacts>,
)
    requires
        counts_shapes(old(shapes)@, groups),
        t@ == shape_of(g),
        groups.len() < usize::MAX,
    ensures
        counts_shapes(final(shapes)@, groups.push(g)),
{
    let ghost before = shapes@;
    let ghost next = groups.push(g);
    let key = codes_of(&t);
    let mut at: usize = 0;
    while at < shapes.len() && text::is_before(&codes_of(&shapes[at].0), &key)
        invariant
            at <= shapes@.len(),
            shapes@ == before,
            key@ == text::codes(t@),
            forall|k: int|
                0 <= k < at ==> text::before(
                    text::codes((#[trigger] shapes@[k]).0@),
                    text::codes(t@),
                ),
        decreases shapes@.len() - at,
    {
        at = at + 1;
    }
    proof {
        assert forall|u: Seq<char>| #[trigger] count_of(next, u) == count_of(groups, u) + (if u
            == t@ {
            1nat
        } else {
            0nat
        }) && count_of(groups, u) <= groups.len() by {
            lemma_count_grows(groups, g, u);
        }
        assert forall|k: int| 0 <= k < at implies (#[trigger] before[k]).0@ != t@ by {
            text::lemma_before_order(text::codes(t@), text::codes(t@), text::codes(t@));
        }
    }
    if at < shapes.len() && shapes[at].0 == t {
        let n: usize = shapes[at].1;
        assert(n + 1 == count_of(next, t@));
        shapes.remove(at);
        shapes.insert(at, (t, n + 1));
        let ghost after = shapes@;
        proof {
            assert forall|i: int| 0 <= i < after.len() implies (#[trigger] after[i]).0@
                == before[i].0@ by {}
            assert forall|i: int| 0 <= i < after.len() implies (#[trigger] after[i]).1 == count_of(
                next,
                after[i].0@,
            ) && after[i].1 > 0 by {
                if i != at {
                    assert(before[i].1 == count_of(groups, before[i].0@));
                    if before[i].0@ == before[at as int].0@ {
                        text::lemma_before_order(
                            text::codes(t@),
                            text::codes(t@),
                            text::codes(t@),
                        );
                    }
                }
            }
            assert forall|i: int, j: int| 0 <= i < j < after.len() implies text::before(
                text::codes((#[trigger] after[i]).0@),
                text::codes((#[trigger] after[j]).0@),
            ) by {
                assert(text::before(text::codes(before[i].0@), text::codes(before[j].0@)));
            }
            assert forall|u: Seq<char>| #[trigger] count_of(next, u) > 0 implies exists|i: int|
                0 <= i < after.len() && (#[trigger] after[i]).0@ == u by {
                if u == t@ {
                    assert(after[at as int].0@ == u);
                } else {
                    assert(count_of(groups, u) > 0);
                    let k = choose|k: int| 0 <= k < before.len() && (#[trigger] before[k]).0@ == u;
                    assert(after[k].0@ == u);
                }
            }
        }
        return ;
    }
    let ghost new = t@;
    shapes.insert(at, (t, 1));
    proof {
        let after = shapes@;
        assert forall|k: int| at <= k < before.len() implies text::before(
            text::codes(new),
            text::codes((#[trigger] before[k]).0@),
        ) by {
            let first = text::codes(before[at as int].0@);
            text::lemma_before_total(text::codes(new), first);
            if text::codes(new) == first {
                text::lemma_codes_injective(new, before[at as int].0@);
            }
            if k > at {
                text::lemma_before_order(text::codes(new), first, text::codes(before[k].0@));
            }
        }
        assert forall|k: int| 0 <= k < before.len() implies (#[trigger] before[k]).0@ != new by {
            text::lemma_before_order(text::codes(new), text::codes(new), text::codes(new));
        }
        assert(count_of(groups, new) == 0) by {
            if count_of(groups, new) > 0 {
                let k = choose|k: int| 0 <= k < before.len() && (#[trigger] before[k]).0@ == new;
                assert(before[k].0@ != new);
            }
        }
        assert forall|i: int| 0 <= i < after.len() implies (#[trigger] after[i]).1 == count_of(
            next,
            after[i].0@,
        ) && after[i].1 > 0 by {
            if i < at {
                assert(after[i] == before[i]);
            } else if i > at {
                assert(after[i] == before[i - 1]);
            }
        }
        assert forall|i: int, j: int| 0 <= i < j < after.len() implies text::before(
            text::codes((#[trigger] after[i]).0@),
            text::codes((#[trigger] after[j]).0@),
        ) by {
            let m = if i < at {
                i
            } else {
                i - 1
            };
            let n = if j < at {
                j
            } else {
                j - 1
            };
            if i != at {
                assert(after[i] == before[m]);
            }
            if j != at {
                assert(after[j] == before[n]);
            }
        }
        assert forall|u: Seq<char>| #[trigger] count_of(next, u) > 0 implies exists|i: int|
            0 <= i < after.len() && (#[trigger] after[i]).0@ == u by {
            if u == new {
                assert(after[at as int].0@ == u);
            } else {
                assert(count_of(groups, u) > 0);
                let k = choose|k: int| 0 <= k < before.len() && (#[trigger] before[k]).0@ == u;
                if k < at {
                    assert(after[k].0@ == u);
                } else {
                    assert(after[k + 1].0@ == u);
                }
            }
        }
    }
}

proof fn lemma_files_grow(groups: Seq<GroupFacts>, n: int)
    requires
        0 <= n <= groups.len(),
    ensures
        files_in(groups.take(n)) <= files_in(groups),
    decreases groups.len() - n,
{
    if n < groups.len() {
        lemma_files_grow(groups, n + 1);
        assert(groups.take(n + 1).drop_last() == groups.take(n));
    } else {
        assert(groups.take(n) == groups);
    }
}

/// The figures of a scan.
pub fn summarise(groups: &Vec<Group>) -> (s: Summary)
    requires
        files_in(scan::group_facts(groups@)) <= usize::MAX,
    ensures
        counts_shapes(s.shapes@, scan::group_facts(groups@)),
        s.files == files_in(scan::group_facts(groups@)),
        s.raw_only == raw_only_in(scan::group_facts(groups@)),
        s.hidden == hidden_in(scan::group_facts(groups@)),
{
    let ghost facts = scan::group_facts(groups@);
    let mut shapes: Vec<(String, usize)> = Vec::new();
    let mut files: usize = 0;
    let mut raw_only: usize = 0;
    let mut hidden: usize = 0;
    for i in 0..groups.len()
        invariant
            facts == scan::group_facts(groups@),
            files_in(facts) <= usize::MAX,
            counts_shapes(shapes@, facts.take(i as int)),
            files == files_in(facts.take(i as int)),
            raw_only == raw_only_in(facts.take(i as int)),
            hidden == hidden_in(facts.take(i as int)),
            raw_only <= i,
            hidden <= i,
    {
        let ghost head = facts.take(i as int);
        let ghost g = facts[i as int];
        assert(g == groups@[i as int]@);
        assert(facts.take(i + 1) == head.push(g));
        assert(facts.take(i + 1).drop_last() == head);
        proof {
            lemma_files_grow(facts, i + 1);
        }
        count_shape(&mut shapes, shape(&groups[i]), Ghost(head), Ghost(g));
        if groups[i].is_raw_only() {
            raw_only = raw_only + 1;
        }
        if groups[i].display_path().is_none() {
            hidden = hidden + 1;
        }
        files = files + groups[i].members.len();
    }
    assert(facts.take(facts.len() as int) == facts);
    Summary { shapes, files, raw_only, hidden }
}

/// The extensions of a group are joined by a plus sign, in order: one file is its extension, and
/// another adds its own behind it if it does not sort before any.
pub proof fn law_shape_names_every_extension(
    ms: Seq<MemberFacts>,
    m: MemberFacts,
    a: Seq<char>,
    v: Seq<Seq<char>>,
)
    ensures
        extensions(Seq::empty()).len() == 0,
        extensions(ms.push(m)).len() == extensions(ms).len() + 1,
        extensions(ms.push(m)).to_multiset() == extensions(ms).to_multiset().insert(m.ext),
        joined(Seq::empty()).len() == 0,
        joined(seq![a]) == a,
        v.len() > 0 ==> joined(v.push(a)) == joined(v) + "+"@ + a,
{
    assert(ms.push(m).drop_last() == ms);
    lemma_insert_text_holds(extensions(ms), m.ext);
    assert(v.push(a).drop_last() == v);
}

proof fn lemma_insert_text_holds(v: Seq<Seq<char>>, t: Seq<char>)
    ensures
        insert_text(v, t).len() == v.len() + 1,
        insert_text(v, t).to_multiset() == v.to_multiset().insert(t),
    decreases v.len(),
{
    broadcast use vstd::seq_lib::group_to_multiset_ensures;

    if v.len() > 0 && text::before(text::codes(t), text::codes(v.last())) {
        let init = v.drop_last();
        lemma_insert_text_holds(init, t);
        assert(v == init.push(v.last()));
        assert(insert_text(v, t).to_multiset() =~= v.to_multiset().insert(t));
    }
}

/// Texts in order.
pub open spec fn in_order(v: Seq<Seq<char>>) -> bool {
    forall|i: int, j: int|
        0 <= i < j < v.len() ==> !text::before(
            text::codes(#[trigger] v[j]),
            text::codes(#[trigger] v[i]),
        )
}

proof fn lemma_insert_text_in_order(v: Seq<Seq<char>>, t: Seq<char>)
    requires
        in_order(v),
    ensures
        in_order(insert_text(v, t)),
        forall|i: int|
            0 <= i < insert_text(v, t).len() ==> #[trigger] insert_text(v, t)[i] == t
                || v.contains(insert_text(v, t)[i]),
    decreases v.len(),
{
    let r = insert_text(v, t);
    let key = text::codes(t);
    if v.len() > 0 && text::before(key, text::codes(v.last())) {
        let init = v.drop_last();
        let last = v.len() - 1;
        assert(forall|i: int| 0 <= i < init.len() ==> #[trigger] init[i] == v[i]);
        lemma_insert_text_in_order(init, t);
        let s = insert_text(init, t);
        assert forall|i: int| 0 <= i < s.len() implies !text::before(
            text::codes(v[last]),
            text::codes(#[trigger] s[i]),
        ) && (s[i] == t || v.contains(s[i])) by {
            if s[i] == t {
                text::lemma_before_order(key, text::codes(v[last]), key);
            } else {
                let n = choose|n: int| 0 <= n < init.len() && init[n] == s[i];
                assert(v[n] == s[i]);
            }
        }
        assert forall|i: int, j: int| 0 <= i < j < r.len() implies !text::before(
            text::codes(#[trigger] r[j]),
            text::codes(#[trigger] r[i]),
        ) by {
            assert(r[i] == s[i]);
            if j < s.len() {
                assert(r[j] == s[j]);
            }
        }
        assert forall|i: int| 0 <= i < r.len() implies #[trigger] r[i] == t || v.contains(
            r[i],
        ) by {
            if i < s.len() {
                assert(r[i] == s[i]);
            } else {
                assert(v[last] == r[i]);
            }
        }
    } else {
        assert forall|i: int, j: int| 0 <= i < j < r.len() implies !text::before(
            text::codes(#[trigger] r[j]),
            text::codes(#[trigger] r[i]),
        ) by {
            if j == v.len() && i < v.len() - 1 {
                let (b, c) = (text::codes(v[i]), text::codes(v[v.len() - 1]));
                assert(!text::before(c, b));
                text::lemma_before_total(b, c);
                text::lemma_before_order(key, b, c);
            }
        }
        assert forall|i: int| 0 <= i < r.len() implies #[trigger] r[i] == t || v.contains(
            r[i],
        ) by {
            if i < v.len() {
                assert(v[i] == r[i]);
            }
        }
    }
}

/// The extensions in a shape stand in order, whatever the order of the files.
pub proof fn law_extensions_stand_in_order(ms: Seq<MemberFacts>)
    ensures
        in_order(extensions(ms)),
    decreases ms.len(),
{
    if ms.len() > 0 {
        law_extensions_stand_in_order(ms.drop_last());
        lemma_insert_text_in_order(extensions(ms.drop_last()), ms.last().ext);
    }
}

/// Every group counts once: under its shape, with its files, among those shown from RAW if it is,
/// and among those with nothing to show if there is nothing.
pub proof fn law_every_group_counts_once(groups: Seq<GroupFacts>, g: GroupFacts, t: Seq<char>)
    ensures
        count_of(Seq::empty(), t) == 0,
        files_in(Seq::empty()) == 0,
        raw_only_in(Seq::empty()) == 0,
        hidden_in(Seq::empty()) == 0,
        joined(extensions(g.members)) == t ==> count_of(groups.push(g), t) == count_of(groups, t)
            + 1,
        joined(extensions(g.members)) != t ==> count_of(groups.push(g), t) == count_of(groups, t),
        files_in(groups.push(g)) == files_in(groups) + g.members.len(),
        g.is_raw_only() ==> raw_only_in(groups.push(g)) == raw_only_in(groups) + 1,
        !g.is_raw_only() ==> raw_only_in(groups.push(g)) == raw_only_in(groups),
        g.display_path() is None ==> hidden_in(groups.push(g)) == hidden_in(groups) + 1,
        g.display_path() is Some ==> hidden_in(groups.push(g)) == hidden_in(groups),
{
    assert(groups.push(g).drop_last() == groups);
}

} // verus!

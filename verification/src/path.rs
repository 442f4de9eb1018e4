//! Paths as text: components separated by `/`, and the order in which they sort.
use vstd::prelude::*;
use crate::text;

verus! {

/// The first `/` of `s` at or after `i`, or the end.
pub open spec fn next_slash(s: Seq<char>, i: int) -> int
    decreases s.len() - i,
{
    if i >= s.len() || i < 0 {
        s.len() as int
    } else if s[i] == '/' {
        i
    } else {
        next_slash(s, i + 1)
    }
}

proof fn lemma_next_slash(s: Seq<char>, i: int)
    requires
        0 <= i <= s.len(),
    ensures
        i <= next_slash(s, i) <= s.len(),
        next_slash(s, i) < s.len() ==> s[next_slash(s, i)] == '/',
        forall|k: int| i <= k < next_slash(s, i) ==> s[k] != '/',
    decreases s.len() - i,
{
    if i < s.len() && s[i] != '/' {
        lemma_next_slash(s, i + 1);
    }
}

/// The sort key of one component: `.` and `..` before every name, names by their characters.
/// Repeated separators, and `.` anywhere but at the start of a relative path, mean nothing.
pub open spec fn part_key(part: Seq<char>, first: bool) -> Seq<u32> {
    if part.len() == 0 {
        Seq::empty()
    } else if part == seq!['.'] {
        if first {
            seq![2u32, 0u32]
        } else {
            Seq::empty()
        }
    } else if part == seq!['.', '.'] {
        seq![3u32, 0u32]
    } else {
        seq![4u32] + Seq::new(part.len(), |i: int| (part[i] as u32 + 5) as u32) + seq![0u32]
    }
}

/// The sort key of the components from position `i` on, where one starts.
pub open spec fn key_from(s: Seq<char>, i: int) -> Seq<u32>
    decreases s.len() - i,
    when 0 <= i <= s.len()
    via key_from_decreases
{
    let j = next_slash(s, i);
    let key = part_key(s.subrange(i, j), i == 0);
    if j < s.len() {
        key + key_from(s, j + 1)
    } else {
        key
    }
}

#[via_fn]
proof fn key_from_decreases(s: Seq<char>, i: int) {
    lemma_next_slash(s, i);
}

/// The sort key of a path. Paths sort component by component: an absolute path before a
/// relative one, a directory before what is in it, and a name that starts another before it.
pub open spec fn path_key(s: Seq<char>) -> Seq<u32> {
    if s.len() > 0 && s[0] == '/' {
        seq![1u32, 0u32] + key_from(s, 0)
    } else {
        key_from(s, 0)
    }
}

/// Append the sort key of the component `v[i..j]`.
fn push_part(key: &mut Vec<u32>, v: &Vec<char>, i: usize, j: usize)
    requires
        i <= j <= v@.len(),
    ensures
        final(key)@ == old(key)@ + part_key(v@.subrange(i as int, j as int), i == 0),
{
    let ghost part = v@.subrange(i as int, j as int);
    let ghost start = key@;
    if i == j {
        assert(key@ == start + part_key(part, i == 0));
        return;
    }
    if j - i == 1 && v[i] == '.' {
        assert(part == seq!['.']);
        if i == 0 {
            key.push(2);
            key.push(0);
        }
        assert(key@ == start + part_key(part, i == 0));
        return;
    }
    assert(part != seq!['.']) by {
        let dot = seq!['.'];
        assert(dot.len() == 1 && dot[0] == '.');
        assert(part.len() == j - i && part[0] == v@[i as int]);
    }
    if j - i == 2 && v[i] == '.' && v[i + 1] == '.' {
        assert(part == seq!['.', '.']);
        key.push(3);
        key.push(0);
        assert(key@ == start + part_key(part, i == 0));
        return;
    }
    assert(part != seq!['.', '.']) by {
        let dots = seq!['.', '.'];
        assert(dots.len() == 2 && dots[0] == '.' && dots[1] == '.');
        assert(part.len() == j - i && part[0] == v@[i as int]);
        assert(j - i == 2 ==> part[1] == v@[i + 1]);
    }
    key.push(4);
    for k in i..j
        invariant
            i <= j <= v@.len(),
            part == v@.subrange(i as int, j as int),
            key@ == start + seq![4u32] + Seq::new(
                (k - i) as nat,
                |n: int| (part[n] as u32 + 5) as u32,
            ),
    {
        let c = v[k];
        assert(c == part[k - i]);
        key.push(text::code(c) + 5);
        assert(key@ == start + seq![4u32] + Seq::new(
            (k + 1 - i) as nat,
            |n: int| (part[n] as u32 + 5) as u32,
        ));
    }
    key.push(0);
    assert(key@ == start + part_key(part, i == 0));
}

/// The sort key of `s`.
pub fn sort_key(s: &str) -> (key: Vec<u32>)
    ensures
        key@ == path_key(s@),
{
    let v = text::to_chars(s);
    let mut key: Vec<u32> = Vec::new();
    if v.len() > 0 && v[0] == '/' {
        key.push(1);
        key.push(0);
    }
    let ghost root = key@;
    let ghost whole = root + key_from(s@, 0);
    let len: usize = v.len();
    let mut i: usize = 0;
    let mut j: usize = 0;
    while j < len
        invariant
            v@ == s@,
            len == v@.len(),
            i <= j <= len,
            next_slash(s@, i as int) == next_slash(s@, j as int),
            key@ + key_from(s@, i as int) == whole,
        decreases len - j,
    {
        if v[j] == '/' {
            let ghost before = key@;
            push_part(&mut key, &v, i, j);
            proof {
                assert(next_slash(s@, j as int) == j);
                let part = part_key(s@.subrange(i as int, j as int), i == 0);
                assert(key_from(s@, i as int) == part + key_from(s@, j + 1));
                assert(before + (part + key_from(s@, j + 1)) == (before + part) + key_from(
                    s@,
                    j + 1,
                ));
            }
            i = j + 1;
        }
        j = j + 1;
    }
    push_part(&mut key, &v, i, j);
    assert(root + key_from(s@, 0) == path_key(s@));
    key
}

/// The last `/` of `s`, or -1.
pub open spec fn last_slash(s: Seq<char>) -> int
    decreases s.len(),
{
    if s.len() == 0 {
        -1
    } else if s.last() == '/' {
        s.len() - 1
    } else {
        last_slash(s.drop_last())
    }
}

pub proof fn lemma_last_slash(s: Seq<char>)
    ensures
        -1 <= last_slash(s) < s.len(),
    decreases s.len(),
{
    if s.len() > 0 && s.last() != '/' {
        lemma_last_slash(s.drop_last());
    }
}

/// The final component of a path when it is a name: none for the root, `.` and `..`. Trailing
/// separators and `/.` do not count.
pub open spec fn spec_file_name(s: Seq<char>) -> Option<Seq<char>>
    decreases s.len(),
    via file_name_decreases
{
    let k = last_slash(s);
    let name = s.subrange(k + 1, s.len() as int);
    if k >= 0 && (name.len() == 0 || name == seq!['.']) {
        spec_file_name(s.subrange(0, k))
    } else if name.len() == 0 || name == seq!['.'] || name == seq!['.', '.'] {
        None
    } else {
        Some(name)
    }
}

#[via_fn]
proof fn file_name_decreases(s: Seq<char>) {
    lemma_last_slash(s);
}

/// The position of the last `/` among the first `end` characters, plus one.
fn name_start(v: &Vec<char>, end: usize) -> (k: usize)
    requires
        end <= v@.len(),
    ensures
        k == last_slash(v@.subrange(0, end as int)) + 1,
        k <= end,
{
    let mut k: usize = end;
    while k > 0
        invariant
            k <= end <= v@.len(),
            last_slash(v@.subrange(0, end as int)) == last_slash(v@.subrange(0, k as int)),
        decreases k,
    {
        let ghost s = v@.subrange(0, k as int);
        assert(s.last() == v@[k - 1]);
        if v[k - 1] == '/' {
            return k;
        }
        assert(s.drop_last() == v@.subrange(0, k - 1));
        k = k - 1;
    }
    k
}

/// The final component of `s` when it is a name.
pub fn file_name(s: &str) -> (r: Option<String>)
    ensures
        match r {
            Some(name) => spec_file_name(s@) == Some(name@),
            None => spec_file_name(s@) is None,
        },
{
    let v = text::to_chars(s);
    let mut end: usize = v.len();
    assert(v@.subrange(0, end as int) == s@);
    loop
        invariant
            v@ == s@,
            end <= v@.len(),
            spec_file_name(s@) == spec_file_name(v@.subrange(0, end as int)),
        decreases end,
    {
        let k = name_start(&v, end);
        let ghost head = v@.subrange(0, end as int);
        let ghost name = head.subrange(k as int, end as int);
        assert(name == v@.subrange(k as int, end as int));
        let dot = end - k == 1 && v[k] == '.';
        let dots = end - k == 2 && v[k] == '.' && v[k + 1] == '.';
        proof {
            if end - k == 1 {
                assert(name[0] == v@[k as int]);
            }
            if end - k == 2 {
                assert(name[0] == v@[k as int] && name[1] == v@[k + 1]);
            }
            if dot {
                assert(name == seq!['.']);
            }
            if dots {
                assert(name == seq!['.', '.']);
            }
        }
        if k > 0 && (k == end || dot) {
            assert(head.subrange(0, k - 1) == v@.subrange(0, k - 1));
            end = k - 1;
            continue ;
        }
        if k == end || dot || dots {
            return None;
        }
        let name = text::from_chars(vstd::slice::slice_subrange(v.as_slice(), k, end));
        return Some(name);
    }
}

/// One component as it stands in the canonical form of a path.
pub open spec fn part_text(part: Seq<char>, first: bool) -> Seq<char> {
    if part.len() == 0 || (part == seq!['.'] && !first) {
        Seq::empty()
    } else {
        part.push('/')
    }
}

/// The canonical form of the components from position `i` on, where one starts.
pub open spec fn canonical_from(s: Seq<char>, i: int) -> Seq<char>
    decreases s.len() - i,
    when 0 <= i <= s.len()
    via canonical_from_decreases
{
    let j = next_slash(s, i);
    let part = part_text(s.subrange(i, j), i == 0);
    if j < s.len() {
        part + canonical_from(s, j + 1)
    } else {
        part
    }
}

#[via_fn]
proof fn canonical_from_decreases(s: Seq<char>, i: int) {
    lemma_next_slash(s, i);
}

/// The canonical form of a path, each component followed by one separator: two paths name the
/// same components just when it is the same.
pub open spec fn canonical(s: Seq<char>) -> Seq<char> {
    if s.len() > 0 && s[0] == '/' {
        seq!['/'] + canonical_from(s, 0)
    } else {
        canonical_from(s, 0)
    }
}

/// Append the component `v[i..j]`.
fn push_part_text(out: &mut Vec<char>, v: &Vec<char>, i: usize, j: usize)
    requires
        i <= j <= v@.len(),
    ensures
        final(out)@ == old(out)@ + part_text(v@.subrange(i as int, j as int), i == 0),
{
    let ghost part = v@.subrange(i as int, j as int);
    let ghost start = out@;
    if i == j || (j - i == 1 && v[i] == '.' && i > 0) {
        proof {
            if i < j {
                assert(part == seq!['.']);
            }
            assert(out@ == start + part_text(part, i == 0));
        }
        return;
    }
    assert(part != seq!['.'] || i == 0) by {
        let dot = seq!['.'];
        assert(dot.len() == 1 && dot[0] == '.');
        assert(part.len() == j - i && part[0] == v@[i as int]);
    }
    for k in i..j
        invariant
            i <= j <= v@.len(),
            part == v@.subrange(i as int, j as int),
            out@ == start + part.take(k - i),
    {
        assert(part[k - i] == v@[k as int]);
        out.push(v[k]);
        assert(part.take(k + 1 - i) == part.take(k - i).push(v@[k as int]));
    }
    out.push('/');
    assert(part.take(j - i) == part);
    assert(out@ == start + part.push('/'));
}

/// The canonical form of `s`.
pub fn canonical_text(s: &str) -> (r: String)
    ensures
        r@ == canonical(s@),
{
    let v = text::to_chars(s);
    let mut out: Vec<char> = Vec::new();
    if v.len() > 0 && v[0] == '/' {
        out.push('/');
    }
    let ghost root = out@;
    let ghost whole = root + canonical_from(s@, 0);
    let len: usize = v.len();
    let mut i: usize = 0;
    let mut j: usize = 0;
    while j < len
        invariant
            v@ == s@,
            len == v@.len(),
            i <= j <= len,
            next_slash(s@, i as int) == next_slash(s@, j as int),
            out@ + canonical_from(s@, i as int) == whole,
        decreases len - j,
    {
        if v[j] == '/' {
            let ghost before = out@;
            push_part_text(&mut out, &v, i, j);
            proof {
                assert(next_slash(s@, j as int) == j);
                let part = part_text(s@.subrange(i as int, j as int), i == 0);
                assert(canonical_from(s@, i as int) == part + canonical_from(s@, j + 1));
                assert(before + (part + canonical_from(s@, j + 1)) == (before + part)
                    + canonical_from(s@, j + 1));
            }
            i = j + 1;
        }
        j = j + 1;
    }
    push_part_text(&mut out, &v, i, j);
    assert(root + canonical_from(s@, 0) == canonical(s@));
    text::from_chars(out.as_slice())
}

/// The extension of a path's file name: what follows its last dot, unless that dot starts the
/// name.
pub open spec fn spec_extension(s: Seq<char>) -> Option<Seq<char>> {
    match spec_file_name(s) {
        Some(name) => {
            let k = crate::scan::last_dot(name);
            if k <= 0 {
                None
            } else {
                Some(name.subrange(k + 1, name.len() as int))
            }
        },
        None => None,
    }
}

/// The extension of `s`'s file name.
pub fn extension(s: &str) -> (r: Option<Vec<char>>)
    ensures
        match r {
            Some(e) => spec_extension(s@) == Some(e@),
            None => spec_extension(s@) is None,
        },
{
    let name = match file_name(s) {
        Some(n) => text::to_chars(n.as_str()),
        None => {
            return None;
        },
    };
    let len: usize = name.len();
    let mut k: usize = len;
    assert(name@.subrange(0, len as int) == name@);
    while k > 0 && name[k - 1] != '.'
        invariant
            k <= len == name@.len(),
            crate::scan::last_dot(name@) == crate::scan::last_dot(name@.subrange(0, k as int)),
        decreases k,
    {
        let ghost head = name@.subrange(0, k as int);
        assert(head.last() == name@[k - 1]);
        assert(head.drop_last() == name@.subrange(0, k - 1));
        k = k - 1;
    }
    if k <= 1 {
        proof {
            if k == 1 {
                assert(name@.subrange(0, 1).last() == '.');
            }
        }
        return None;
    }
    assert(name@.subrange(0, k as int).last() == '.');
    let mut e: Vec<char> = Vec::new();
    for i in k..len
        invariant
            k <= len == name@.len(),
            e@ == name@.subrange(k as int, i as int),
    {
        e.push(name[i]);
        assert(name@.subrange(k as int, i + 1) == name@.subrange(k as int, i as int).push(
            name@[i as int],
        ));
    }
    Some(e)
}

/// What an element of a sort key stands for in the canonical form of the path.
spec fn letter(v: u32) -> Seq<char> {
    if v == 0 {
        seq!['/']
    } else if v == 2 {
        seq!['.']
    } else if v == 3 {
        seq!['.', '.']
    } else if v >= 5 {
        seq![((v - 5) as u32) as char]
    } else {
        Seq::empty()
    }
}

/// The canonical form that a sort key spells out.
spec fn spelled(key: Seq<u32>) -> Seq<char>
    decreases key.len(),
{
    if key.len() == 0 {
        Seq::empty()
    } else {
        spelled(key.drop_last()) + letter(key.last())
    }
}

proof fn lemma_spelled_add(a: Seq<u32>, b: Seq<u32>)
    ensures
        spelled(a + b) == spelled(a) + spelled(b),
    decreases b.len(),
{
    if b.len() == 0 {
        assert(a + b == a);
    } else {
        assert((a + b).drop_last() == a + b.drop_last());
        lemma_spelled_add(a, b.drop_last());
    }
}

proof fn lemma_letter(c: char)
    ensures
        letter((c as u32 + 5) as u32) == seq![c],
        (c as u32 + 5) as u32 == c as u32 + 5,
{
    assert(c as u32 <= 0x10FFFF);
    assert((c as u32 + 5) as u32 == c as u32 + 5);
}

proof fn lemma_spelled_name(name: Seq<char>, key: Seq<u32>)
    requires
        key == Seq::new(name.len(), |i: int| (name[i] as u32 + 5) as u32),
    ensures
        spelled(key) == name,
    decreases name.len(),
{
    if name.len() > 0 {
        let init = name.drop_last();
        assert(key.drop_last() == Seq::new(init.len(), |i: int| (init[i] as u32 + 5) as u32));
        lemma_spelled_name(init, key.drop_last());
        lemma_letter(name.last());
        assert(init.push(name.last()) == name);
    }
}

proof fn lemma_spelled_part(part: Seq<char>, first: bool)
    ensures
        spelled(part_key(part, first)) == part_text(part, first),
{
    let key = part_key(part, first);
    if part.len() == 0 || (part == seq!['.'] && !first) {
        assert(key == Seq::<u32>::empty());
    } else if part == seq!['.'] || part == seq!['.', '.'] {
        assert(key.drop_last().drop_last() == Seq::<u32>::empty());
        assert(spelled(key.drop_last().drop_last()) == Seq::<char>::empty());
        assert(spelled(key.drop_last()) == part);
        assert(spelled(key) == part.push('/'));
    } else {
        let name = Seq::new(part.len(), |i: int| (part[i] as u32 + 5) as u32);
        lemma_spelled_name(part, name);
        lemma_spelled_add(seq![4u32] + name, seq![0u32]);
        lemma_spelled_add(seq![4u32], name);
        assert(seq![4u32].drop_last() == Seq::<u32>::empty());
        assert(seq![0u32].drop_last() == Seq::<u32>::empty());
        reveal_with_fuel(spelled, 2);
        assert(spelled(seq![4u32]) == Seq::<char>::empty());
        assert(spelled(seq![0u32]) == seq!['/']);
        assert(part + seq!['/'] == part.push('/'));
    }
}

proof fn lemma_spelled_from(s: Seq<char>, i: int)
    requires
        0 <= i <= s.len(),
    ensures
        spelled(key_from(s, i)) == canonical_from(s, i),
    decreases s.len() - i,
{
    lemma_next_slash(s, i);
    let j = next_slash(s, i);
    lemma_spelled_part(s.subrange(i, j), i == 0);
    if j < s.len() {
        lemma_spelled_from(s, j + 1);
        lemma_spelled_add(part_key(s.subrange(i, j), i == 0), key_from(s, j + 1));
    }
}

/// Two paths sort alike only when they name the same components.
pub proof fn law_sort_keys_tell_paths_apart(s: Seq<char>, t: Seq<char>)
    requires
        path_key(s) == path_key(t),
    ensures
        canonical(s) == canonical(t),
{
    lemma_spelled(s);
    lemma_spelled(t);
}

proof fn lemma_spelled(s: Seq<char>)
    ensures
        spelled(path_key(s)) == canonical(s),
{
    lemma_spelled_from(s, 0);
    let root = seq![1u32, 0u32];
    lemma_spelled_add(root, key_from(s, 0));
    assert(root.drop_last().drop_last() == Seq::<u32>::empty());
    reveal_with_fuel(spelled, 3);
    assert(spelled(root.drop_last()) == Seq::<char>::empty());
    assert(spelled(root) == seq!['/']);
}

proof fn lemma_last_slash_at(s: Seq<char>, k: int)
    requires
        -1 <= k < s.len(),
        k >= 0 ==> s[k] == '/',
        forall|i: int| k < i < s.len() ==> s[i] != '/',
    ensures
        last_slash(s) == k,
    decreases s.len(),
{
    if s.len() > 0 && k < s.len() - 1 {
        let init = s.drop_last();
        assert(forall|i: int| 0 <= i < init.len() ==> #[trigger] init[i] == s[i]);
        assert(s.last() != '/');
        lemma_last_slash_at(init, k);
    }
}

/// The name of a file: it holds no separator, and is neither `.` nor `..`.
pub open spec fn is_name(name: Seq<char>) -> bool {
    &&& name.len() > 0
    &&& forall|i: int| 0 <= i < name.len() ==> #[trigger] name[i] != '/'
    &&& name != seq!['.']
    &&& name != seq!['.', '.']
}

/// The file name of a path is what follows its last separator; a separator at the end makes no
/// difference.
pub proof fn law_file_name_follows_the_last_separator(dir: Seq<char>, name: Seq<char>)
    requires
        is_name(name),
    ensures
        spec_file_name(name) == Some(name),
        spec_file_name(dir + seq!['/'] + name) == Some(name),
        spec_file_name((dir + seq!['/'] + name).push('/')) == Some(name),
        spec_file_name(seq!['/']) is None,
        spec_file_name(seq!['.', '.']) is None,
        spec_file_name(Seq::empty()) is None,
{
    lemma_last_slash_at(name, -1);
    assert(name.subrange(0, name.len() as int) == name);
    let p = dir + seq!['/'] + name;
    let k = dir.len() as int;
    assert(forall|i: int| 0 <= i < name.len() ==> #[trigger] p[k + 1 + i] == name[i]);
    assert forall|i: int| k < i < p.len() implies p[i] != '/' by {
        assert(p[k + 1 + (i - k - 1)] == name[i - k - 1]);
    }
    lemma_last_slash_at(p, k);
    assert(p.subrange(k + 1, p.len() as int) == name);
    assert(spec_file_name(p) == Some(name));
    let q = p.push('/');
    lemma_last_slash_at(q, p.len() as int);
    assert(q.subrange(p.len() as int + 1, q.len() as int) == Seq::<char>::empty());
    assert(q.subrange(0, p.len() as int) == p);
    assert(spec_file_name(q) == spec_file_name(p));
    let root = seq!['/'];
    lemma_last_slash_at(root, 0);
    assert(root.subrange(1, 1) == Seq::<char>::empty());
    assert(root.subrange(0, 0) == Seq::<char>::empty());
    let none = Seq::<char>::empty();
    lemma_last_slash_at(none, -1);
    assert(none.subrange(0, 0) == none);
    assert(spec_file_name(none) is None);
    let up = seq!['.', '.'];
    lemma_last_slash_at(up, -1);
    assert(up.subrange(0, 2) == up);
}

proof fn lemma_next_slash_at(s: Seq<char>, i: int, j: int)
    requires
        0 <= i <= j <= s.len(),
        j < s.len() ==> s[j] == '/',
        forall|k: int| i <= k < j ==> s[k] != '/',
    ensures
        next_slash(s, i) == j,
    decreases j - i,
{
    if i < j {
        lemma_next_slash_at(s, i + 1, j);
    }
}

proof fn lemma_key_prefix(p: Seq<char>, q: Seq<char>, i: int, tail: Seq<u32>)
    requires
        0 <= i <= p.len() < q.len(),
        p.len() > 0,
        i == p.len() ==> p.last() == '/',
        forall|k: int| 0 <= k < p.len() ==> q[k] == p[k],
        q[p.len() as int] == '/',
        tail == key_from(q, p.len() as int + 1),
    ensures
        i < p.len() ==> key_from(q, i) == key_from(p, i) + tail,
    decreases p.len() - i,
{
    if i < p.len() {
        lemma_next_slash(p, i);
        let j = next_slash(p, i);
        lemma_next_slash_at(q, i, j);
        assert(p.subrange(i, j) == q.subrange(i, j));
        if j < p.len() {
            if j + 1 < p.len() {
                lemma_key_prefix(p, q, j + 1, tail);
                assert(key_from(q, i) == part_key(q.subrange(i, j), i == 0) + key_from(q, j + 1));
                assert(key_from(q, i) == key_from(p, i) + tail);
            } else {
                lemma_next_slash_at(p, p.len() as int, p.len() as int);
                lemma_next_slash_at(q, p.len() as int, p.len() as int);
                assert(p.subrange(p.len() as int, p.len() as int) == Seq::<char>::empty());
                assert(q.subrange(p.len() as int, p.len() as int) == Seq::<char>::empty());
                assert(key_from(p, j + 1) == Seq::<u32>::empty());
                assert(key_from(q, j + 1) == Seq::<u32>::empty() + tail);
                assert(key_from(q, i) == key_from(p, i) + tail);
            }
        } else {
            assert(key_from(q, i) == key_from(p, i) + tail);
        }
    }
}

/// The key of a name.
spec fn name_key(name: Seq<char>) -> Seq<u32> {
    seq![4u32] + Seq::new(name.len(), |i: int| (name[i] as u32 + 5) as u32) + seq![0u32]
}

proof fn lemma_key_of_child(dir: Seq<char>, name: Seq<char>)
    requires
        dir.len() > 0,
        is_name(name),
    ensures
        path_key(dir + seq!['/'] + name) == path_key(dir) + name_key(name),
{
    let q = dir + seq!['/'] + name;
    let n = dir.len() as int;
    assert(forall|i: int| 0 <= i < name.len() ==> #[trigger] q[n + 1 + i] == name[i]);
    assert forall|k: int| n + 1 <= k < q.len() implies q[k] != '/' by {
        assert(q[n + 1 + (k - n - 1)] == name[k - n - 1]);
    }
    lemma_next_slash_at(q, n + 1, q.len() as int);
    assert(q.subrange(n + 1, q.len() as int) == name);
    assert(key_from(q, n + 1) == name_key(name));
    lemma_key_prefix(dir, q, 0, name_key(name));
    assert(seq![1u32, 0u32] + (key_from(dir, 0) + name_key(name)) == (seq![1u32, 0u32] + key_from(
        dir,
        0,
    )) + name_key(name));
}

proof fn lemma_before_behind(d: Seq<u32>, x: Seq<u32>, y: Seq<u32>)
    ensures
        text::before(d + x, d + y) <==> text::before(x, y),
{
    let (p, q) = (d + x, d + y);
    text::law_before_is_lexicographic(p, q);
    text::law_before_is_lexicographic(x, y);
    let n = d.len() as int;
    assert(forall|k: int| 0 <= k < x.len() ==> #[trigger] x[k] == p[n + k]);
    assert(forall|k: int| 0 <= k < y.len() ==> #[trigger] y[k] == q[n + k]);
    if text::before(x, y) {
        let i = choose|i: int| text::first_difference(x, y, i);
        assert forall|j: int| 0 <= j < n + i implies #[trigger] p[j] == q[j] by {
            if j >= n {
                assert(x[j - n] == y[j - n]);
            }
        }
        assert(y[i] == q[n + i]);
        if i < x.len() {
            assert(x[i] == p[n + i]);
        }
        assert(text::first_difference(p, q, n + i));
    }
    if text::before(p, q) {
        let m = choose|m: int| text::first_difference(p, q, m);
        if m < n {
            assert(p[m] == d[m] && q[m] == d[m]);
        }
        let i = m - n;
        assert forall|j: int| 0 <= j < i implies #[trigger] x[j] == y[j] by {
            assert(p[n + j] == q[n + j]);
            assert(y[j] == q[n + j]);
        }
        assert(y[i] == q[n + i]);
        if i < x.len() {
            assert(x[i] == p[n + i]);
        }
        assert(text::first_difference(x, y, i));
    }
}

proof fn lemma_name_key(name: Seq<char>)
    ensures
        name_key(name).len() == name.len() + 2,
        name_key(name)[0] == 4,
        forall|i: int|
            0 <= i < name.len() ==> #[trigger] text::codes(name)[i] + 5 == name_key(name)[i + 1],
        name_key(name)[name.len() as int + 1] == 0,
{
    let k = name_key(name);
    assert forall|i: int| 0 <= i < name.len() implies #[trigger] text::codes(name)[i] + 5 == k[i
        + 1] by {
        let c = name[i];
        lemma_letter(c);
        assert(k[i + 1] == (c as u32 + 5) as u32);
    }
}

proof fn lemma_name_keys_before(a: Seq<char>, b: Seq<char>)
    ensures
        text::before(text::codes(a), text::codes(b)) ==> text::before(name_key(a), name_key(b)),
        text::before(name_key(a), name_key(b)) ==> text::before(text::codes(a), text::codes(b)),
{
    let (s, t) = (text::codes(a), text::codes(b));
    let (x, y) = (name_key(a), name_key(b));
    text::law_before_is_lexicographic(s, t);
    text::law_before_is_lexicographic(x, y);
    lemma_name_key(a);
    lemma_name_key(b);
    if text::before(s, t) {
        let i = choose|i: int| text::first_difference(s, t, i);
        assert forall|j: int| 0 <= j < i + 1 implies #[trigger] x[j] == y[j] by {
            if j > 0 {
                assert(s[j - 1] == t[j - 1]);
            }
        }
        assert(t[i] + 5 == y[i + 1]);
        if i < s.len() {
            assert(s[i] + 5 == x[i + 1]);
        }
        assert(text::first_difference(x, y, i + 1));
    }
    if text::before(x, y) {
        let m = choose|m: int| text::first_difference(x, y, m);
        let i = m - 1;
        assert(m > 0) by {
            assert(x[0] == y[0]);
        }
        if i > s.len() {
            assert(x[s.len() as int + 1] == y[s.len() as int + 1]);
            if s.len() < t.len() {
                assert(t[s.len() as int] + 5 == y[s.len() as int + 1]);
            }
            if t.len() < s.len() {
                assert(x[t.len() as int + 1] == y[t.len() as int + 1]);
                assert(s[t.len() as int] + 5 == x[t.len() as int + 1]);
            }
        }
        assert(i <= s.len());
        if i > t.len() {
            assert(x[t.len() as int + 1] == y[t.len() as int + 1]);
            assert(s[t.len() as int] + 5 == x[t.len() as int + 1]);
        }
        assert(i < t.len()) by {
            if i == t.len() {
                assert(y[m] == 0);
            }
        }
        assert forall|j: int| 0 <= j < i implies #[trigger] s[j] == t[j] by {
            assert(x[j + 1] == y[j + 1]);
            assert(t[j] + 5 == y[j + 1]);
        }
        assert(t[i] + 5 == y[i + 1]);
        if i < s.len() {
            assert(s[i] + 5 == x[i + 1]);
        }
        assert(text::first_difference(s, t, i));
    }
}

/// Paths sort as a file manager shows them: a directory before what it holds, and what it holds
/// by name, character by character, a name that starts another one first.
pub proof fn law_paths_sort_by_name(dir: Seq<char>, a: Seq<char>, b: Seq<char>)
    requires
        dir.len() > 0,
        is_name(a),
        is_name(b),
    ensures
        text::before(path_key(dir), path_key(dir + seq!['/'] + a)),
        text::before(path_key(dir + seq!['/'] + a), path_key(dir + seq!['/'] + b))
            <==> text::before(text::codes(a), text::codes(b)),
{
    lemma_key_of_child(dir, a);
    lemma_key_of_child(dir, b);
    let d = path_key(dir);
    text::law_before_is_lexicographic(d, d + name_key(a));
    assert(text::first_difference(d, d + name_key(a), d.len() as int));
    lemma_before_behind(d, name_key(a), name_key(b));
    lemma_name_keys_before(a, b);
}

proof fn lemma_last_dot_at(s: Seq<char>, k: int)
    requires
        -1 <= k < s.len(),
        k >= 0 ==> s[k] == '.',
        forall|i: int| k < i < s.len() ==> s[i] != '.',
    ensures
        crate::scan::last_dot(s) == k,
    decreases s.len(),
{
    if s.len() > 0 && k < s.len() - 1 {
        let init = s.drop_last();
        assert(forall|i: int| 0 <= i < init.len() ==> #[trigger] init[i] == s[i]);
        assert(s.last() != '.');
        lemma_last_dot_at(init, k);
    }
}

/// The extension of a file is what follows the last dot of its name, unless that dot is the
/// first character.
pub proof fn law_extension_follows_the_last_dot(dir: Seq<char>, base: Seq<char>, ext: Seq<char>)
    requires
        base.len() > 0,
        is_name(base + seq!['.'] + ext),
        forall|i: int| 0 <= i < ext.len() ==> #[trigger] ext[i] != '.',
    ensures
        spec_extension(dir + seq!['/'] + (base + seq!['.'] + ext)) == Some(ext),
        spec_extension(base + seq!['.'] + ext) == Some(ext),
        is_name(ext) ==> spec_extension(ext) is None,
        is_name(seq!['.'] + ext) ==> spec_extension(seq!['.'] + ext) is None,
{
    let name = base + seq!['.'] + ext;
    law_file_name_follows_the_last_separator(dir, name);
    let k = base.len() as int;
    assert(forall|i: int| 0 <= i < ext.len() ==> #[trigger] name[k + 1 + i] == ext[i]);
    assert forall|i: int| k < i < name.len() implies name[i] != '.' by {
        assert(name[k + 1 + (i - k - 1)] == ext[i - k - 1]);
    }
    lemma_last_dot_at(name, k);
    assert(name.subrange(k + 1, name.len() as int) == ext);
    if is_name(ext) {
        law_file_name_follows_the_last_separator(dir, ext);
        lemma_last_dot_at(ext, -1);
    }
    let hidden = seq!['.'] + ext;
    if is_name(hidden) {
        law_file_name_follows_the_last_separator(dir, hidden);
        assert forall|i: int| 0 < i < hidden.len() implies hidden[i] != '.' by {
            assert(hidden[i] == ext[i - 1]);
        }
        lemma_last_dot_at(hidden, 0);
    }
}

proof fn lemma_canonical_prefix(p: Seq<char>, q: Seq<char>, i: int, tail: Seq<char>)
    requires
        0 <= i <= p.len() < q.len(),
        p.len() > 0,
        forall|k: int| 0 <= k < p.len() ==> q[k] == p[k],
        q[p.len() as int] == '/',
        tail == canonical_from(q, p.len() as int + 1),
    ensures
        i < p.len() ==> canonical_from(q, i) == canonical_from(p, i) + tail,
    decreases p.len() - i,
{
    if i < p.len() {
        lemma_next_slash(p, i);
        let j = next_slash(p, i);
        lemma_next_slash_at(q, i, j);
        assert(p.subrange(i, j) == q.subrange(i, j));
        if j < p.len() {
            if j + 1 < p.len() {
                lemma_canonical_prefix(p, q, j + 1, tail);
                assert(canonical_from(q, i) == canonical_from(p, i) + tail);
            } else {
                lemma_next_slash_at(p, p.len() as int, p.len() as int);
                lemma_next_slash_at(q, p.len() as int, p.len() as int);
                assert(p.subrange(p.len() as int, p.len() as int) == Seq::<char>::empty());
                assert(q.subrange(p.len() as int, p.len() as int) == Seq::<char>::empty());
                assert(canonical_from(p, j + 1) == Seq::<char>::empty());
                assert(canonical_from(q, j + 1) == Seq::<char>::empty() + tail);
                assert(canonical_from(q, i) == canonical_from(p, i) + tail);
            }
        } else {
            assert(canonical_from(q, i) == canonical_from(p, i) + tail);
        }
    }
}

/// However many separators follow a directory, it is the same directory; and a file in it is told
/// from every other file in it by its name.
pub proof fn law_spelling_of_a_path_does_not_matter(dir: Seq<char>, a: Seq<char>, b: Seq<char>)
    requires
        dir.len() > 0,
        is_name(a),
        is_name(b),
    ensures
        canonical(dir.push('/')) == canonical(dir),
        canonical(dir + seq!['/'] + a) == canonical(dir) + a + seq!['/'],
        canonical(dir.push('/') + seq!['/'] + a) == canonical(dir + seq!['/'] + a),
        canonical(dir + seq!['/'] + a) == canonical(dir + seq!['/'] + b) ==> a == b,
{
    let q = dir.push('/');
    let n = dir.len() as int;
    lemma_next_slash_at(q, n + 1, n + 1);
    assert(q.subrange(n + 1, n + 1) == Seq::<char>::empty());
    assert(canonical_from(q, n + 1) == Seq::<char>::empty());
    lemma_canonical_prefix(dir, q, 0, Seq::empty());
    assert(canonical_from(dir, 0) + Seq::<char>::empty() == canonical_from(dir, 0));
    assert(canonical(q) == canonical(dir));
    lemma_canonical_child(dir, a);
    lemma_canonical_child(dir, b);
    lemma_canonical_child(q, a);
    let (c, x, y) = (
        canonical(dir),
        canonical(dir + seq!['/'] + a),
        canonical(dir + seq!['/'] + b),
    );
    if x == y {
        assert(x.len() == c.len() + a.len() + 1);
        assert(y.len() == c.len() + b.len() + 1);
        assert forall|i: int| 0 <= i < a.len() implies a[i] == b[i] by {
            assert(x[c.len() + i] == a[i]);
            assert(y[c.len() + i] == b[i]);
        }
        assert(a == b);
    }
}

proof fn lemma_canonical_child(dir: Seq<char>, name: Seq<char>)
    requires
        dir.len() > 0,
        is_name(name),
    ensures
        canonical(dir + seq!['/'] + name) == canonical(dir) + name + seq!['/'],
{
    let q = dir + seq!['/'] + name;
    let n = dir.len() as int;
    assert(forall|i: int| 0 <= i < name.len() ==> #[trigger] q[n + 1 + i] == name[i]);
    assert forall|k: int| n + 1 <= k < q.len() implies q[k] != '/' by {
        assert(q[n + 1 + (k - n - 1)] == name[k - n - 1]);
    }
    lemma_next_slash_at(q, n + 1, q.len() as int);
    assert(q.subrange(n + 1, q.len() as int) == name);
    assert(canonical_from(q, n + 1) == name.push('/'));
    lemma_canonical_prefix(dir, q, 0, name.push('/'));
    assert(canonical(q) == canonical(dir) + name + seq!['/']);
}

} // verus!

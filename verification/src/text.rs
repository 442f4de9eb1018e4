//! Strings as sequences of characters: decimals, padding, ordering.
use vstd::prelude::*;

verus! {

/// `String::push` appends one character.
pub assume_specification[ String::push ](s: &mut String, c: char)
    ensures
        final(s)@ == old(s)@.push(c),
;

/// The characters of a string, in order.
pub fn to_chars(s: &str) -> (v: Vec<char>)
    ensures
        v@ == s@,
{
    let mut v: Vec<char> = Vec::new();
    for c in it: s.chars()
        invariant
            v@ == s@.take(it.index() as int),
            it.seq() == s@,
    {
        v.push(c);
        assert(s@.take(it.index() as int + 1) == s@.take(it.index() as int).push(c));
    }
    assert(s@.take(s@.len() as int) == s@);
    v
}

/// The string made of the given characters.
pub fn from_chars(v: &[char]) -> (s: String)
    ensures
        s@ == v@,
{
    let mut s: String = String::new();
    for i in 0..v.len()
        invariant
            s@ == v@.take(i as int),
    {
        s.push(v[i]);
        assert(v@.take(i as int + 1) == v@.take(i as int).push(v@[i as int]));
    }
    assert(v@.take(v@.len() as int) == v@);
    s
}

/// A string with the same characters.
pub fn copy(s: &str) -> (r: String)
    ensures
        r@ == s@,
{
    String::from_str(s)
}

/// The decimal digit `d`.
pub open spec fn digit(d: nat) -> char {
    ('0' as nat + d) as char
}

/// `n` in decimal, without leading zeros.
pub open spec fn decimal(n: nat) -> Seq<char>
    decreases n,
{
    if n < 10 {
        seq![digit(n)]
    } else {
        decimal(n / 10).push(digit(n % 10))
    }
}

fn exec_digit(d: u8) -> (c: char)
    requires
        d < 10,
    ensures
        c == digit(d as nat),
{
    (48u8 + d) as char
}

/// Append `n` in decimal.
pub fn push_decimal(s: &mut String, n: u64)
    ensures
        final(s)@ == old(s)@ + decimal(n as nat),
    decreases n,
{
    if n >= 10 {
        push_decimal(s, n / 10);
    }
    s.push(exec_digit((n % 10) as u8));
    assert(s@ == old(s)@ + decimal(n as nat));
}

/// `c`, `n` times.
pub open spec fn repeated(c: char, n: nat) -> Seq<char> {
    Seq::new(n, |i: int| c)
}

/// `s` filled up with `c` on the left to `width` characters; a longer `s` as it is.
pub open spec fn pad_left(s: Seq<char>, c: char, width: nat) -> Seq<char> {
    if s.len() < width {
        repeated(c, (width - s.len()) as nat) + s
    } else {
        s
    }
}

/// `s` filled up with `c` on the right to `width` characters; a longer `s` as it is.
pub open spec fn pad_right(s: Seq<char>, c: char, width: nat) -> Seq<char> {
    if s.len() < width {
        s + repeated(c, (width - s.len()) as nat)
    } else {
        s
    }
}

/// Append `c`, `n` times.
pub fn push_repeated(s: &mut String, c: char, n: usize)
    ensures
        final(s)@ == old(s)@ + repeated(c, n as nat),
{
    let ghost before = s@;
    for i in 0..n
        invariant
            s@ == before + repeated(c, i as nat),
    {
        s.push(c);
        assert(repeated(c, i as nat).push(c) == repeated(c, (i + 1) as nat));
        assert(s@ == before + repeated(c, i as nat).push(c));
    }
}

/// Append `t`, filled up with `c` on the left.
pub fn push_padded_left(s: &mut String, t: &str, c: char, width: usize)
    ensures
        final(s)@ == old(s)@ + pad_left(t@, c, width as nat),
{
    let len: usize = t.unicode_len();
    if len < width {
        push_repeated(s, c, width - len);
    }
    s.append(t);
    assert(s@ == old(s)@ + pad_left(t@, c, width as nat));
}

/// Append `t`, filled up with `c` on the right.
pub fn push_padded_right(s: &mut String, t: &str, c: char, width: usize)
    ensures
        final(s)@ == old(s)@ + pad_right(t@, c, width as nat),
{
    let len: usize = t.unicode_len();
    s.append(t);
    if len < width {
        push_repeated(s, c, width - len);
    }
    assert(s@ == old(s)@ + pad_right(t@, c, width as nat));
}

/// Append `n` in decimal with leading zeros up to `width` digits.
pub fn push_decimal_padded(s: &mut String, n: u64, width: usize)
    ensures
        final(s)@ == old(s)@ + pad_left(decimal(n as nat), '0', width as nat),
{
    let mut digits = String::new();
    push_decimal(&mut digits, n);
    assert(digits@ == decimal(n as nat));
    push_padded_left(s, digits.as_str(), '0', width);
}

/// `a` comes before `b` in lexicographic order, position `i` being the first to look at.
pub open spec fn before_from(a: Seq<u32>, b: Seq<u32>, i: int) -> bool
    decreases b.len() - i,
{
    if i >= b.len() {
        false
    } else if i >= a.len() {
        true
    } else if a[i] != b[i] {
        a[i] < b[i]
    } else {
        before_from(a, b, i + 1)
    }
}

/// `a` comes before `b` in lexicographic order.
pub open spec fn before(a: Seq<u32>, b: Seq<u32>) -> bool {
    before_from(a, b, 0)
}

/// Whether `a` comes before `b` in lexicographic order.
pub fn is_before(a: &Vec<u32>, b: &Vec<u32>) -> (r: bool)
    ensures
        r == before(a@, b@),
{
    let mut i: usize = 0;
    while i < b.len()
        invariant
            i <= b@.len(),
            i <= a@.len(),
            before(a@, b@) == before_from(a@, b@, i as int),
        decreases b@.len() - i,
    {
        if i >= a.len() {
            return true;
        }
        if a[i] != b[i] {
            return a[i] < b[i];
        }
        i = i + 1;
    }
    false
}

proof fn lemma_before_transitive_from(a: Seq<u32>, b: Seq<u32>, c: Seq<u32>, i: int)
    requires
        0 <= i,
    ensures
        before_from(a, b, i) && before_from(b, c, i) ==> before_from(a, c, i),
        before_from(a, b, i) && !before_from(c, b, i) ==> before_from(a, c, i),
        !before_from(b, a, i) && before_from(b, c, i) ==> before_from(a, c, i),
    decreases a.len() + b.len() + c.len() - 3 * i,
{
    if i < a.len() && i < b.len() && i < c.len() {
        lemma_before_transitive_from(a, b, c, i + 1);
    }
}

/// Lexicographic order is a strict weak order: "before" is irreflexive and carries over.
pub proof fn lemma_before_order(a: Seq<u32>, b: Seq<u32>, c: Seq<u32>)
    ensures
        !before(a, a),
        before(a, b) ==> !before(b, a),
        before(a, b) && before(b, c) ==> before(a, c),
        before(a, b) && !before(c, b) ==> before(a, c),
        !before(b, a) && before(b, c) ==> before(a, c),
{
    lemma_before_irreflexive(a, 0);
    lemma_before_asymmetric(a, b, 0);
    lemma_before_transitive_from(a, b, c, 0);
}

proof fn lemma_before_irreflexive(a: Seq<u32>, i: int)
    requires
        0 <= i,
    ensures
        !before_from(a, a, i),
    decreases a.len() - i,
{
    if i < a.len() {
        lemma_before_irreflexive(a, i + 1);
    }
}

proof fn lemma_before_asymmetric(a: Seq<u32>, b: Seq<u32>, i: int)
    requires
        0 <= i,
    ensures
        before_from(a, b, i) ==> !before_from(b, a, i),
    decreases b.len() - i,
{
    if i < a.len() && i < b.len() {
        lemma_before_asymmetric(a, b, i + 1);
    }
}

proof fn lemma_before_total_from(a: Seq<u32>, b: Seq<u32>, i: int)
    requires
        0 <= i,
        i <= a.len(),
        i <= b.len(),
        forall|k: int| 0 <= k < i ==> a[k] == b[k],
    ensures
        before_from(a, b, i) || before_from(b, a, i) || a == b,
    decreases a.len() - i,
{
    if i < a.len() && i < b.len() {
        if a[i] == b[i] {
            lemma_before_total_from(a, b, i + 1);
        }
    } else if i == a.len() && i == b.len() {
        assert(a =~= b);
    }
}

/// Of two different sequences one comes before the other.
pub proof fn lemma_before_total(a: Seq<u32>, b: Seq<u32>)
    ensures
        before(a, b) || before(b, a) || a == b,
{
    lemma_before_total_from(a, b, 0);
}

/// The code point of a character.
pub fn code(c: char) -> (n: u32)
    ensures
        n == c as u32,
        n <= 0x10FFFF,
{
    c as u32
}

/// The code points of a string: strings are ordered as these are.
pub open spec fn codes(s: Seq<char>) -> Seq<u32> {
    Seq::new(s.len(), |i: int| s[i] as u32)
}

proof fn lemma_code_injective(a: char, b: char)
    requires
        a as u32 == b as u32,
    ensures
        a == b,
{
}

/// Different strings have different code points.
pub proof fn lemma_codes_injective(s: Seq<char>, t: Seq<char>)
    ensures
        codes(s) == codes(t) ==> s == t,
{
    if codes(s) == codes(t) {
        assert(s.len() == codes(s).len() && t.len() == codes(t).len());
        assert forall|i: int| 0 <= i < s.len() implies s[i] == t[i] by {
            assert(codes(s)[i] == codes(t)[i]);
            lemma_code_injective(s[i], t[i]);
        }
        assert(s =~= t);
    }
}

/// The code points of `v`.
pub fn to_codes(v: &Vec<char>) -> (r: Vec<u32>)
    ensures
        r@ == codes(v@),
{
    let mut r: Vec<u32> = Vec::new();
    for i in 0..v.len()
        invariant
            r@ == codes(v@.take(i as int)),
    {
        r.push(v[i] as u32);
        assert(r@ == codes(v@.take(i + 1)));
    }
    assert(v@.take(v@.len() as int) == v@);
    r
}

/// The number that a row of decimal digits stands for.
pub open spec fn number(s: Seq<char>) -> int
    decreases s.len(),
{
    if s.len() == 0 {
        0
    } else {
        10 * number(s.drop_last()) + (s.last() as int - 48)
    }
}

/// A number in decimal is a row of digits that reads back as the number, and does not start with
/// a zero unless it is one.
pub proof fn law_decimal_reads_back(n: nat)
    ensures
        number(decimal(n)) == n,
        decimal(n).len() > 0,
        forall|i: int| 0 <= i < decimal(n).len() ==> 48 <= (#[trigger] decimal(n)[i]) as int <= 57,
        n > 0 ==> decimal(n)[0] as int != 48,
        n < 10 <==> decimal(n).len() == 1,
        n < 100 <==> decimal(n).len() <= 2,
    decreases n,
{
    let s = decimal(n);
    if n >= 10 {
        law_decimal_reads_back(n / 10);
        let init = decimal(n / 10);
        assert(s.drop_last() == init);
        assert forall|i: int| 0 <= i < s.len() implies 48 <= (#[trigger] s[i]) as int <= 57 by {
            if i < init.len() {
                assert(s[i] == init[i]);
            }
        }
        assert(s[0] == init[0]);
    } else {
        assert(s.drop_last() == Seq::<char>::empty());
        assert(number(s.drop_last()) == 0);
    }
}

/// A padded text ends, or starts, with the text, and the rest is filling.
pub proof fn law_padding_goes_to_one_side(s: Seq<char>, c: char, width: nat)
    ensures
        ({
            let p = pad_left(s, c, width);
            &&& p.len() == (if s.len() < width {
                width
            } else {
                s.len()
            })
            &&& p.subrange(p.len() - s.len(), p.len() as int) == s
            &&& forall|i: int| 0 <= i < p.len() - s.len() ==> #[trigger] p[i] == c
        }),
        ({
            let p = pad_right(s, c, width);
            &&& p.len() == (if s.len() < width {
                width
            } else {
                s.len()
            })
            &&& p.subrange(0, s.len() as int) == s
            &&& forall|i: int| s.len() <= i < p.len() ==> #[trigger] p[i] == c
        }),
{
}

proof fn lemma_before_from(a: Seq<u32>, b: Seq<u32>, from: int)
    requires
        0 <= from <= a.len(),
        from <= b.len(),
        forall|j: int| 0 <= j < from ==> #[trigger] a[j] == b[j],
    ensures
        before_from(a, b, from) <==> exists|i: int|
            from <= i && first_difference(a, b, i),
    decreases b.len() - from,
{
    if from < b.len() && from < a.len() && a[from] == b[from] {
        lemma_before_from(a, b, from + 1);
        if exists|i: int| from <= i && first_difference(a, b, i) {
            let i = choose|i: int| from <= i && first_difference(a, b, i);
            assert(from + 1 <= i && first_difference(a, b, i));
        }
    } else if before_from(a, b, from) {
        assert(first_difference(a, b, from));
    } else if exists|i: int| from <= i && first_difference(a, b, i) {
        let i = choose|i: int| from <= i && first_difference(a, b, i);
        if i > from {
            assert(a[from] == b[from]);
        }
    }
}

/// `a` and `b` agree up to `i`, where `a` ends or has the smaller number.
pub open spec fn first_difference(a: Seq<u32>, b: Seq<u32>, i: int) -> bool {
    &&& 0 <= i <= a.len() && i < b.len()
    &&& forall|j: int| 0 <= j < i ==> #[trigger] a[j] == b[j]
    &&& i == a.len() || a[i] < b[i]
}

/// One row comes before another if it is smaller where they first differ, or is the start of it.
pub proof fn law_before_is_lexicographic(a: Seq<u32>, b: Seq<u32>)
    ensures
        before(a, b) <==> exists|i: int| first_difference(a, b, i),
        forall|s: Seq<char>, i: int|
            0 <= i < s.len() ==> #[trigger] codes(s)[i] == s[i] as u32,
        forall|s: Seq<char>| #[trigger] codes(s).len() == s.len(),
{
    lemma_before_from(a, b, 0);
    if exists|i: int| first_difference(a, b, i) {
        let i = choose|i: int| first_difference(a, b, i);
        assert(0 <= i && first_difference(a, b, i));
    }
}

} // verus!

//! Sizes and times as the interface shows them.
use vstd::prelude::*;
use crate::date;
use crate::scan::WallTime;
use crate::text;

verus! {

/// `n / d` rounded to the nearest integer, ties to the even one.
pub open spec fn half_even(n: nat, d: nat) -> nat {
    let q = n / d;
    let r = n % d;
    if 2 * r > d || (2 * r == d && q % 2 == 1) {
        q + 1
    } else {
        q
    }
}

fn round_half_even(n: u128, d: u128) -> (q: u128)
    requires
        0 < d < 0x1_0000_0000_0000_0000_0000_0000,
        n < 0x1_0000_0000_0000_0000_0000_0000,
    ensures
        q == half_even(n as nat, d as nat),
{
    let q: u128 = n / d;
    let r: u128 = n % d;
    proof {
        assert(q <= n) by (nonlinear_arith)
            requires
                q == n / d,
                d > 0,
        ;
    }
    if 2 * r > d || (2 * r == d && q % 2 == 1) {
        q + 1
    } else {
        q
    }
}

/// 2 to the 53rd: integers below it are exact in double precision.
pub const EXACT: u128 = 0x20_0000_0000_0000;

/// How many low bits of `n` do not fit in the 53 bits of a double's mantissa.
pub open spec fn excess_bits(n: nat) -> nat
    decreases n,
{
    if n < EXACT {
        0
    } else {
        1 + excess_bits(n / 2)
    }
}

/// The double nearest to the integer `n`.
pub open spec fn nearest_double(n: nat) -> nat {
    let unit = vstd::arithmetic::power2::pow2(excess_bits(n));
    half_even(n, unit) * unit
}

/// The smallest power of two that brings `n / d` up to 2 to the 52nd.
pub open spec fn mantissa_scale(n: nat, d: nat) -> nat
    decreases
            if n < d * 0x10_0000_0000_0000 {
                d * 0x10_0000_0000_0000 - n
            } else {
                0
            },
{
    if n == 0 || n >= d * 0x10_0000_0000_0000 {
        1
    } else {
        2 * mantissa_scale(2 * n, d)
    }
}

/// The double nearest to `n / d`, printed with a fixed number of digits after the point: the
/// mantissa has 53 bits, and printing rounds its exact value. The result is in units of the
/// last digit, of which there are `unit` to one.
pub open spec fn printed_quotient(n: nat, d: nat, unit: nat) -> nat {
    let scale = mantissa_scale(n, d);
    half_even(half_even(n * scale, d) * unit, scale)
}

/// The double nearest to `n`.
fn to_double(n: u64) -> (b: u128)
    ensures
        b == nearest_double(n as nat),
        b <= 0x1_0000_0000_0000_1000,
        n < EXACT ==> b == n,
        n > 0 ==> b > 0,
{
    let mut left: u128 = n as u128;
    let mut unit: u128 = 1;
    let ghost mut bits: nat = 0;
    proof {
        vstd::arithmetic::power2::lemma2_to64();
    }
    while left >= EXACT
        invariant
            excess_bits(n as nat) == bits + excess_bits(left as nat),
            unit == vstd::arithmetic::power2::pow2(bits),
            1 <= unit <= 4096,
            left * unit <= n,
            n < EXACT ==> left == n && unit == 1,
        decreases left,
    {
        proof {
            vstd::arithmetic::power2::lemma_pow2_unfold((bits + 1) as nat);
            assert(unit < 2048) by (nonlinear_arith)
                requires
                    left >= 0x20_0000_0000_0000,
                    unit >= 1,
                    left * unit < 0x1_0000_0000_0000_0000,
            ;
            assert((left / 2) * (2 * unit) <= left * unit) by (nonlinear_arith)
                requires
                    left >= 0,
                    unit >= 1,
            ;
        }
        left = left / 2;
        unit = unit * 2;
        proof {
            bits = bits + 1;
        }
    }
    let q = round_half_even(n as u128, unit);
    proof {
        assert(q * unit <= n + unit) by (nonlinear_arith)
            requires
                q <= n as nat / unit as nat + 1,
                unit >= 1,
        ;
        assert(q * unit > n - unit) by (nonlinear_arith)
            requires
                q >= n as nat / unit as nat,
                unit >= 1,
        ;
        if n < EXACT {
            assert(n as nat / 1 == n && n as nat % 1 == 0);
        }
    }
    q * unit
}

/// `n / d` as a double, printed; see [`printed_quotient`].
fn print_quotient(n: u128, d: u128, unit: u128) -> (r: u128)
    requires
        0 < n <= 0x1_0000_0000_0000_1000,
        1000 <= d <= 1_000_000_000,
        1 <= unit <= 100,
    ensures
        r == printed_quotient(n as nat, d as nat, unit as nat),
        r < 0x8000_0000_0000_0000,
{
    let mut num: u128 = n;
    let mut scale: u128 = 1;
    while num < d * 0x10_0000_0000_0000
        invariant
            0 < n <= num,
            1000 <= d <= 1_000_000_000,
            1 <= scale <= num,
            num == n * scale,
            num < d * 0x20_0000_0000_0000 || num == n,
            mantissa_scale(n as nat, d as nat) == scale * mantissa_scale(num as nat, d as nat),
        decreases d * 0x20_0000_0000_0000 - num,
    {
        proof {
            assert(scale * (2 * mantissa_scale(2 * num as nat, d as nat)) == (2 * scale)
                * mantissa_scale(2 * num as nat, d as nat)) by (nonlinear_arith);
            assert(2 * (n * scale) == n * (2 * scale)) by (nonlinear_arith);
        }
        num = num * 2;
        scale = scale * 2;
    }
    let mantissa: u128 = round_half_even(num, d);
    proof {
        assert(mantissa <= num as nat / d as nat + 1);
        assert(num as nat / d as nat <= 0x100_0000_0000_0000) by (nonlinear_arith)
            requires
                num < d * 0x20_0000_0000_0000 || num <= 0x1_0000_0000_0000_1000,
                d >= 1000,
        ;
        assert(mantissa * unit <= 0x100_0000_0000_0001 * 100) by (nonlinear_arith)
            requires
                mantissa <= 0x100_0000_0000_0001,
                unit <= 100,
        ;
        let one = mantissa_scale(num as nat, d as nat);
        assert(scale * one == scale) by (nonlinear_arith)
            requires
                one == 1,
        ;
    }
    let r = round_half_even(mantissa * unit, scale);
    proof {
        let x = (mantissa * unit) as nat;
        assert(x / scale as nat <= x) by (nonlinear_arith)
            requires
                scale >= 1,
        ;
    }
    r
}

/// `n` tenths, hundredths or the like, in decimal with a point before the last `places` digits.
pub open spec fn decimal_point(n: nat, unit: nat, places: nat) -> Seq<char> {
    text::decimal(n / unit) + seq!['.'] + text::pad_left(text::decimal(n % unit), '0', places)
}

/// A byte count in the interface: gigabytes with two digits after the point, megabytes with
/// one, kilobytes with none; nothing at all is `-`.
pub open spec fn size_text(bytes: nat) -> Seq<char> {
    let b = nearest_double(bytes);
    if b >= 1_000_000_000 {
        decimal_point(printed_quotient(b, 1_000_000_000, 100), 100, 2) + " GB"@
    } else if b >= 1_000_000 {
        decimal_point(printed_quotient(b, 1_000_000, 10), 10, 1) + " MB"@
    } else if bytes > 0 {
        text::decimal(printed_quotient(b, 1000, 1)) + " kB"@
    } else {
        "-"@
    }
}

/// Append `n` with a point before the last `places` digits.
fn push_decimal_point(s: &mut String, n: u64, unit: u64, places: usize)
    requires
        unit > 0,
    ensures
        final(s)@ == old(s)@ + decimal_point(n as nat, unit as nat, places as nat),
{
    text::push_decimal(s, n / unit);
    s.push('.');
    text::push_decimal_padded(s, n % unit, places);
    assert(s@ == old(s)@ + decimal_point(n as nat, unit as nat, places as nat));
}

/// Human-readable byte count, e.g. `31.8 MB`.
pub fn format_size(bytes: u64) -> (s: String)
    ensures
        s@ == size_text(bytes as nat),
{
    let b: u128 = to_double(bytes);
    let mut s = String::new();
    if b >= 1_000_000_000 {
        let n: u128 = print_quotient(b, 1_000_000_000, 100);
        push_decimal_point(&mut s, n as u64, 100, 2);
        s.append(" GB");
    } else if b >= 1_000_000 {
        let n: u128 = print_quotient(b, 1_000_000, 10);
        push_decimal_point(&mut s, n as u64, 10, 1);
        s.append(" MB");
    } else if bytes > 0 {
        let n: u128 = print_quotient(b, 1000, 1);
        text::push_decimal(&mut s, n as u64);
        s.append(" kB");
    } else {
        s.push('-');
        proof {
            reveal_strlit("-");
        }
    }
    assert(s@ == size_text(bytes as nat));
    s
}

/// The size of an image in millions of pixels, with one digit after the point.
pub open spec fn megapixels_text(width: nat, height: nat) -> Seq<char> {
    decimal_point(printed_quotient(nearest_double(width * height), 1_000_000, 10), 10, 1)
}

/// The size of an image in millions of pixels, e.g. `25.6`.
pub fn format_megapixels(width: u32, height: u32) -> (s: String)
    ensures
        s@ == megapixels_text(width as nat, height as nat),
{
    assert(0 <= width * height <= 0xffff_ffff * 0xffff_ffff) by (nonlinear_arith)
        requires
            0 <= width <= 0xffff_ffff,
            0 <= height <= 0xffff_ffff,
    ;
    let pixels: u64 = width as u64 * height as u64;
    let b: u128 = to_double(pixels);
    let tenths: u128 = if b == 0 {
        assert(printed_quotient(0, 1_000_000, 10) == 0);
        0
    } else {
        print_quotient(b, 1_000_000, 10)
    };
    let mut s = String::new();
    push_decimal_point(&mut s, tenths as u64, 10, 1);
    assert(s@ == megapixels_text(width as nat, height as nat));
    s
}

/// A date and the time of day, as `YYYY-MM-DD HH:MM`.
pub open spec fn time_text(y: nat, m: nat, d: nat, hour: nat, minute: nat) -> Seq<char> {
    text::pad_left(text::decimal(y), '0', 4) + seq!['-'] + text::pad_left(
        text::decimal(m),
        '0',
        2,
    ) + seq!['-'] + text::pad_left(text::decimal(d), '0', 2) + seq![' '] + text::pad_left(
        text::decimal(hour),
        '0',
        2,
    ) + seq![':'] + text::pad_left(text::decimal(minute), '0', 2)
}

/// `s` shows the instant `secs` seconds after the start of 1970, in UTC.
pub open spec fn shows_time(secs: nat, s: Seq<char>) -> bool {
    exists|y: nat, m: nat, d: nat|
        {
            &&& date::is_date(y as int, m as int, d as int)
            &&& date::day_number(y as int, m as int, d as int) == secs / 86_400
            &&& s == #[trigger] time_text(
                y,
                m,
                d,
                (secs % 86_400) / 3600,
                (secs % 3600) / 60,
            )
        }
}

/// Format a timestamp as `YYYY-MM-DD HH:MM` in UTC. Times before 1970 are not worth handling
/// for camera files and come out as `-`.
pub fn format_time(t: WallTime) -> (s: String)
    ensures
        t.secs < 0 ==> s@ == "-"@,
        t.secs >= 0 ==> shows_time(t.secs as nat, s@),
{
    if t.secs < 0 {
        return String::from_str("-");
    }
    let days: i64 = t.secs / 86_400;
    let rem: i64 = t.secs % 86_400;
    let (hour, minute): (i64, i64) = (rem / 3600, (rem % 3600) / 60);
    let day = date::civil_from_days(days);
    let mut s = String::new();
    text::push_decimal_padded(&mut s, day.year as u64, 4);
    s.push('-');
    text::push_decimal_padded(&mut s, day.month as u64, 2);
    s.push('-');
    text::push_decimal_padded(&mut s, day.day as u64, 2);
    s.push(' ');
    text::push_decimal_padded(&mut s, hour as u64, 2);
    s.push(':');
    text::push_decimal_padded(&mut s, minute as u64, 2);
    proof {
        let secs = t.secs as nat;
        assert((secs % 86_400) % 3600 == secs % 3600);
        assert(s@ == time_text(
            day.year as nat,
            day.month as nat,
            day.day as nat,
            (secs % 86_400) / 3600,
            (secs % 3600) / 60,
        ));
    }
    s
}

/// An instant is shown in one way only.
pub proof fn law_time_is_shown_one_way(secs: nat, s: Seq<char>, t: Seq<char>)
    requires
        shows_time(secs, s),
        shows_time(secs, t),
    ensures
        s == t,
{
    let (y, m, d) = choose|y: nat, m: nat, d: nat|
        {
            &&& date::is_date(y as int, m as int, d as int)
            &&& date::day_number(y as int, m as int, d as int) == secs / 86_400
            &&& s == #[trigger] time_text(y, m, d, (secs % 86_400) / 3600, (secs % 3600) / 60)
        };
    let (y2, m2, d2) = choose|y: nat, m: nat, d: nat|
        {
            &&& date::is_date(y as int, m as int, d as int)
            &&& date::day_number(y as int, m as int, d as int) == secs / 86_400
            &&& t == #[trigger] time_text(y, m, d, (secs % 86_400) / 3600, (secs % 3600) / 60)
        };
    date::law_day_numbers_are_distinct(
        y as int,
        m as int,
        d as int,
        y2 as int,
        m2 as int,
        d2 as int,
    );
}

/// Rounding goes to the nearest number, and from halfway to the even one.
pub proof fn law_rounding_goes_to_the_nearest(n: nat, d: nat)
    requires
        d > 0,
    ensures
        -(d as int) <= 2 * (half_even(n, d) * d - n) <= d,
        2 * (half_even(n, d) * d - n) == d || 2 * (n - half_even(n, d) * d) == d ==> half_even(n, d)
            % 2 == 0,
{
    let (q, r) = (n / d, n % d);
    assert(n == q * d + r && 0 <= r < d) by (nonlinear_arith)
        requires
            d > 0,
            q == n / d,
            r == n % d,
    ;
    assert((q + 1) * d == q * d + d) by (nonlinear_arith);
}

proof fn lemma_scale_fills_the_mantissa(n: nat, d: nat)
    requires
        n > 0,
        d > 0,
    ensures
        n * mantissa_scale(n, d) >= d * 0x10_0000_0000_0000,
        mantissa_scale(n, d) >= 1,
    decreases
            if n < d * 0x10_0000_0000_0000 {
                d * 0x10_0000_0000_0000 - n
            } else {
                0
            },
{
    if n >= d * 0x10_0000_0000_0000 {
        assert(n * 1 == n);
    } else {
        lemma_scale_fills_the_mantissa(2 * n, d);
        let s = mantissa_scale(2 * n, d);
        assert((2 * n) * s == n * (2 * s)) by (nonlinear_arith);
    }
}

/// A quotient is printed to the nearest unit of its last digit, give or take a thousandth of one
/// that double precision may cost.
pub proof fn law_quotient_is_printed_to_the_nearest(n: nat, d: nat, unit: nat)
    requires
        0 < n < 0x100_0000_0000,
        1000 <= d,
        1 <= unit <= 100,
    ensures
        -1001 * d <= 2000 * (printed_quotient(n, d, unit) * d - n * unit) <= 1001 * d,
{
    let s = mantissa_scale(n, d);
    lemma_scale_fills_the_mantissa(n, d);
    assert(s >= 0x10_0000) by (nonlinear_arith)
        requires
            n * s >= d * 0x10_0000_0000_0000,
            n < 0x100_0000_0000,
            d >= 1000,
    ;
    let m = half_even(n * s, d);
    let r = half_even(m * unit, s);
    law_rounding_goes_to_the_nearest(n * s, d);
    law_rounding_goes_to_the_nearest(m * unit, s);
    let x = r * d - n * unit;
    let (a, b) = (m * d - n * s, r * s - m * unit);
    lemma_sum_of_errors(n as int, d as int, unit as int, s as int, m as int, r as int);
    assert(x * s == b * d + a * unit);
    assert(2 * (b * d) <= s * d && 2 * (b * d) >= -(s * d)) by (nonlinear_arith)
        requires
            -(s as int) <= 2 * b <= s,
            d >= 1,
    ;
    assert(2 * (a * unit) <= d * unit && 2 * (a * unit) >= -(d * unit)) by (nonlinear_arith)
        requires
            -(d as int) <= 2 * a <= d,
            unit >= 1,
    ;
    assert(1000 * (d * unit) <= s * d) by (nonlinear_arith)
        requires
            1000 * unit <= s,
            d >= 1,
    ;
    assert(-1001 * d <= 2000 * x <= 1001 * d) by (nonlinear_arith)
        requires
            -(s * d) - (d * unit) <= 2 * (x * s) <= s * d + d * unit,
            1000 * (d * unit) <= s * d,
            s >= 1,
            d >= 1,
    ;
}

proof fn lemma_sum_of_errors(n: int, d: int, unit: int, s: int, m: int, r: int)
    by (nonlinear_arith)
    ensures
        (r * d - n * unit) * s == (r * s - m * unit) * d + (m * d - n * s) * unit,
{
}

/// A number with a point before the last `places` digits, of which there are `unit` to one.
pub open spec fn with_point(n: nat, unit: nat, places: nat) -> Seq<char> {
    text::decimal(n / unit) + seq!['.'] + text::pad_left(text::decimal(n % unit), '0', places)
}

proof fn lemma_exact(n: nat)
    requires
        n < 0x20_0000_0000_0000,
    ensures
        nearest_double(n) == n,
{
    vstd::arithmetic::power2::lemma2_to64();
    assert(excess_bits(n) == 0);
    assert(half_even(n, 1) == n);
}

/// A size below a million bytes is shown in whole kilobytes, one below a thousand million in
/// tenths of a megabyte, and a larger one in hundredths of a gigabyte, to the nearest; nothing is
/// a dash.
pub proof fn law_sizes_are_shown_to_the_nearest(bytes: nat) -> (r: nat)
    requires
        bytes < 0x100_0000_0000,
    ensures
        bytes == 0 ==> size_text(bytes) == "-"@,
        0 < bytes < 1_000_000 ==> size_text(bytes) == text::decimal(r) + " kB"@ && -1001 * 1000
            <= 2000 * (r * 1000 - bytes) <= 1001 * 1000,
        1_000_000 <= bytes < 1_000_000_000 ==> size_text(bytes) == with_point(r, 10, 1) + " MB"@
            && -1001 * 1_000_000 <= 2000 * (r * 1_000_000 - bytes * 10) <= 1001 * 1_000_000,
        bytes >= 1_000_000_000 ==> size_text(bytes) == with_point(r, 100, 2) + " GB"@ && -1001
            * 1_000_000_000 <= 2000 * (r * 1_000_000_000 - bytes * 100) <= 1001 * 1_000_000_000,
{
    lemma_exact(bytes);
    if bytes == 0 {
        0
    } else if bytes < 1_000_000 {
        law_quotient_is_printed_to_the_nearest(bytes, 1000, 1);
        printed_quotient(bytes, 1000, 1)
    } else if bytes < 1_000_000_000 {
        law_quotient_is_printed_to_the_nearest(bytes, 1_000_000, 10);
        printed_quotient(bytes, 1_000_000, 10)
    } else {
        law_quotient_is_printed_to_the_nearest(bytes, 1_000_000_000, 100);
        printed_quotient(bytes, 1_000_000_000, 100)
    }
}

/// The size of an image is shown in tenths of a million pixels, to the nearest.
pub proof fn law_megapixels_are_shown_to_the_nearest(width: nat, height: nat) -> (r: nat)
    requires
        0 < width * height < 0x100_0000_0000,
    ensures
        megapixels_text(width, height) == with_point(r, 10, 1),
        -1001 * 1_000_000 <= 2000 * (r * 1_000_000 - width * height * 10) <= 1001 * 1_000_000,
{
    lemma_exact(width * height);
    law_quotient_is_printed_to_the_nearest(width * height, 1_000_000, 10);
    printed_quotient(width * height, 1_000_000, 10)
}

proof fn lemma_leading_zeros(k: nat, s: Seq<char>)
    ensures
        text::number(text::repeated('0', k) + s) == text::number(s),
    decreases s.len(), k,
{
    let z = text::repeated('0', k);
    if s.len() > 0 {
        assert((z + s).drop_last() == z + s.drop_last());
        lemma_leading_zeros(k, s.drop_last());
    } else if k > 0 {
        assert(z + s == z);
        let y = text::repeated('0', (k - 1) as nat);
        assert(z.drop_last() == y);
        lemma_leading_zeros((k - 1) as nat, s);
        assert(y + s == y);
        assert(z.last() == '0');
    } else {
        assert(z + s == s);
    }
}

proof fn lemma_two_digits(n: nat)
    requires
        n < 100,
    ensures
        text::pad_left(text::decimal(n), '0', 2).len() == 2,
        text::number(text::pad_left(text::decimal(n), '0', 2)) == n,
{
    text::law_decimal_reads_back(n);
    let s = text::decimal(n);
    if s.len() < 2 {
        lemma_leading_zeros((2 - s.len()) as nat, s);
    }
}

proof fn lemma_four_digits(n: nat)
    requires
        n < 10000,
    ensures
        text::pad_left(text::decimal(n), '0', 4).len() == 4,
        text::number(text::pad_left(text::decimal(n), '0', 4)) == n,
{
    text::law_decimal_reads_back(n);
    let s = text::decimal(n);
    if n >= 100 {
        text::law_decimal_reads_back(n / 10);
        text::law_decimal_reads_back(n / 100);
        assert(text::decimal(n / 10) == s.drop_last());
        assert(n / 10 / 10 == n / 100);
        assert(text::decimal(n / 10).len() == text::decimal(n / 100).len() + 1);
    }
    assert(s.len() <= 4);
    if s.len() < 4 {
        lemma_leading_zeros((4 - s.len()) as nat, s);
    }
}

proof fn lemma_fields(a: Seq<char>, b: Seq<char>, c: Seq<char>, d: Seq<char>, e: Seq<char>)
    requires
        a.len() == 4,
        b.len() == 2,
        c.len() == 2,
        d.len() == 2,
        e.len() == 2,
    ensures
        ({
            let s = a + seq!['-'] + b + seq!['-'] + c + seq![' '] + d + seq![':'] + e;
            &&& s.len() == 16
            &&& s.subrange(0, 4) == a
            &&& s[4] == '-'
            &&& s.subrange(5, 7) == b
            &&& s[7] == '-'
            &&& s.subrange(8, 10) == c
            &&& s[10] == ' '
            &&& s.subrange(11, 13) == d
            &&& s[13] == ':'
            &&& s.subrange(14, 16) == e
        }),
{
    let s = a + seq!['-'] + b + seq!['-'] + c + seq![' '] + d + seq![':'] + e;
    assert(s.subrange(0, 4) == a);
    assert(s.subrange(5, 7) == b);
    assert(s.subrange(8, 10) == c);
    assert(s.subrange(11, 13) == d);
    assert(s.subrange(14, 16) == e);
}

proof fn lemma_clock(secs: nat)
    ensures
        (secs % 86_400) / 3600 == secs / 3600 % 24,
        (secs % 3600) / 60 == secs / 60 % 60,
        (secs % 86_400) / 3600 < 24,
        (secs % 3600) / 60 < 60,
{
}

/// A time is shown as year, month and day, hours and minutes, in that order and in fixed places:
/// the day is the one with the number of days that have passed since the start of 1970, and hour
/// and minute are those of that day, in UTC.
pub proof fn law_time_reads_back(secs: nat, s: Seq<char>) -> (r: (int, int, int))
    requires
        shows_time(secs, s),
    ensures
        ({
            let (y, m, d) = r;
            &&& date::is_date(y, m, d)
            &&& date::day_number(y, m, d) == secs / 86_400
            &&& 0 <= y < 10000 ==> {
                &&& s.len() == 16
                &&& text::number(s.subrange(0, 4)) == y
                &&& s[4] == '-'
                &&& text::number(s.subrange(5, 7)) == m
                &&& s[7] == '-'
                &&& text::number(s.subrange(8, 10)) == d
                &&& s[10] == ' '
                &&& text::number(s.subrange(11, 13)) == secs / 3600 % 24
                &&& s[13] == ':'
                &&& text::number(s.subrange(14, 16)) == secs / 60 % 60
            }
        }),
{
    let (y, m, d) = choose|y: nat, m: nat, d: nat|
        {
            &&& date::is_date(y as int, m as int, d as int)
            &&& date::day_number(y as int, m as int, d as int) == secs / 86_400
            &&& s == #[trigger] time_text(y, m, d, (secs % 86_400) / 3600, (secs % 3600) / 60)
        };
    let (hour, minute) = ((secs % 86_400) / 3600, (secs % 3600) / 60);
    lemma_clock(secs);
    if y < 10000 {
        lemma_four_digits(y);
        lemma_two_digits(m);
        lemma_two_digits(d);
        lemma_two_digits(hour);
        lemma_two_digits(minute);
        lemma_fields(
            text::pad_left(text::decimal(y), '0', 4),
            text::pad_left(text::decimal(m), '0', 2),
            text::pad_left(text::decimal(d), '0', 2),
            text::pad_left(text::decimal(hour), '0', 2),
            text::pad_left(text::decimal(minute), '0', 2),
        );
    }
    (y as int, m as int, d as int)
}

} // verus!

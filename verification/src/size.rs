//! Human readable file sizes: two decimals of the double precision quotient
//! of the count by a binary unit, computed exactly with integers.

use vstd::prelude::*;
use crate::text::{decimal, digit, digit_char, push_decimal};

verus! {

/// `2` raised to `k`.
pub open spec fn two_pow(k: nat) -> nat
    decreases k,
{
    if k == 0 {
        1
    } else {
        2 * two_pow((k - 1) as nat)
    }
}

/// `num / den` rounded to the nearest integer, ties going to the even one.
pub open spec fn round_half_even(num: nat, den: nat) -> nat {
    let q = num / den;
    let r = num % den;
    if 2 * r > den || (2 * r == den && q % 2 == 1) {
        q + 1
    } else {
        q
    }
}

/// How many low bits of `n` fall outside a 53-bit significand.
pub open spec fn significand_excess(n: nat) -> nat
    decreases n,
{
    if n < two_pow(53) {
        0
    } else {
        proof {
            lemma_two_pow_pos(53);
        }
        1 + significand_excess(n / 2)
    }
}

/// The value of the double nearest to `n` (ties to even), that is what
/// `n as f64` holds.
pub open spec fn nearest_double(n: nat) -> nat {
    let k = significand_excess(n);
    round_half_even(n, two_pow(k)) * two_pow(k)
}

/// `n / 2^unit_log2`, taken as a double quotient of `n as f64`, in
/// hundredths, rounded as two-decimal formatting rounds (to nearest, ties
/// to even).
pub open spec fn hundredths(n: nat, unit_log2: nat) -> nat {
    round_half_even(nearest_double(n) * 100, two_pow(unit_log2))
}

/// A count of hundredths written with exactly two decimals.
pub open spec fn fixed2(h: nat) -> Seq<char> {
    decimal(h / 100) + seq!['.', digit_char((h % 100) / 10), digit_char(h % 10)]
}

/// The text that `format_size` gives for `bytes`.
pub open spec fn spec_format_size(bytes: u64) -> Seq<char> {
    if bytes >= two_pow(30) {
        fixed2(hundredths(bytes as nat, 30)) + seq![' ', 'G', 'B']
    } else if bytes >= two_pow(20) {
        fixed2(hundredths(bytes as nat, 20)) + seq![' ', 'M', 'B']
    } else if bytes >= two_pow(10) {
        fixed2(hundredths(bytes as nat, 10)) + seq![' ', 'K', 'B']
    } else {
        decimal(bytes as nat) + seq![' ', 'B']
    }
}

proof fn lemma_two_pow_values()
    ensures
        two_pow(10) == 0x400,
        two_pow(20) == 0x10_0000,
        two_pow(30) == 0x4000_0000,
        two_pow(53) == 0x20_0000_0000_0000,
        two_pow(64) == 0x1_0000_0000_0000_0000,
{
    reveal_with_fuel(two_pow, 65);
}

/// Powers of two are positive.
pub proof fn lemma_two_pow_pos(k: nat)
    ensures
        two_pow(k) > 0,
    decreases k,
{
    if k > 0 {
        lemma_two_pow_pos((k - 1) as nat);
    }
}

proof fn lemma_two_pow_mono(a: nat, b: nat)
    requires
        a <= b,
    ensures
        two_pow(a) <= two_pow(b),
    decreases b,
{
    if a < b {
        lemma_two_pow_mono(a, (b - 1) as nat);
        lemma_two_pow_pos((b - 1) as nat);
    }
}

proof fn lemma_two_pow_adds(a: nat, b: nat)
    ensures
        two_pow(a + b) == two_pow(a) * two_pow(b),
    decreases b,
{
    if b > 0 {
        lemma_two_pow_adds(a, (b - 1) as nat);
        assert(two_pow(a + b) == 2 * two_pow((a + b - 1) as nat));
        assert(two_pow(a) * (2 * two_pow((b - 1) as nat)) == 2 * (two_pow(a) * two_pow(
            (b - 1) as nat,
        ))) by (nonlinear_arith);
        assert(two_pow(b) == 2 * two_pow((b - 1) as nat));
        assert((a + b - 1) as nat == a + (b - 1) as nat);
    } else {
        assert(two_pow(0) == 1);
        assert(a + b == a);
    }
}

/// `2^k` as a machine integer.
fn two_pow_u128(k: u32) -> (p: u128)
    requires
        k <= 64,
    ensures
        p == two_pow(k as nat),
{
    proof {
        lemma_two_pow_values();
    }
    let mut p: u128 = 1;
    let mut i: u32 = 0;
    while i < k
        invariant
            i <= k <= 64,
            p == two_pow(i as nat),
            two_pow(64) == 0x1_0000_0000_0000_0000,
        decreases k - i,
    {
        proof {
            lemma_two_pow_mono((i + 1) as nat, 64);
        }
        p = p * 2;
        i = i + 1;
    }
    p
}

/// `num / den` rounded half to even, on machine integers.
fn round_half_even_u128(num: u128, den: u128) -> (r: u128)
    requires
        den > 0,
        num <= u128::MAX / 2,
    ensures
        r == round_half_even(num as nat, den as nat),
{
    let q = num / den;
    let r = num % den;
    assert(q <= num) by (nonlinear_arith)
        requires
            den > 0,
            q == num / den,
    ;
    assert(r < den);
    if r > den - r || (r == den - r && q % 2 == 1) {
        q + 1
    } else {
        q
    }
}

proof fn lemma_excess_step(n: nat, m: nat, k: nat)
    requires
        m == n / two_pow(k),
        m >= two_pow(53),
    ensures
        m / 2 == n / two_pow(k + 1),
        significand_excess(m) == 1 + significand_excess(m / 2),
{
    lemma_two_pow_pos(k);
    assert(two_pow(k + 1) == 2 * two_pow(k));
    vstd::arithmetic::div_mod::lemma_div_denominator(n as int, two_pow(k) as int, 2);
    assert(two_pow(k) * 2 == 2 * two_pow(k)) by (nonlinear_arith);
}

/// The value that `n as f64` holds, as an integer.
fn nearest_double_value(n: u64) -> (v: u128)
    ensures
        v == nearest_double(n as nat),
        v <= 0x1_0000_0000_0000_0000,
{
    proof {
        lemma_two_pow_values();
        assert(two_pow(0) == 1);
        assert(n as nat / 1 == n as nat);
    }
    let mut m: u64 = n;
    let mut k: u32 = 0;
    while m >= 0x20_0000_0000_0000
        invariant
            k <= 11,
            m == (n as nat) / two_pow(k as nat),
            m as nat * two_pow(k as nat) <= n,
            significand_excess(n as nat) == k + significand_excess(m as nat),
            two_pow(53) == 0x20_0000_0000_0000,
            two_pow(64) == 0x1_0000_0000_0000_0000,
            m < two_pow((64 - k) as nat),
        decreases m,
    {
        proof {
            lemma_excess_step(n as nat, m as nat, k as nat);
            lemma_two_pow_pos(k as nat);
            assert(two_pow((k + 1) as nat) == 2 * two_pow(k as nat));
            if k >= 11 {
                lemma_two_pow_mono((64 - k) as nat, 53);
            }
            assert(two_pow((64 - k) as nat) == 2 * two_pow((64 - k - 1) as nat));
            assert((m / 2) as nat * two_pow((k + 1) as nat) <= n) by (nonlinear_arith)
                requires
                    m as nat * two_pow(k as nat) <= n,
                    two_pow((k + 1) as nat) == 2 * two_pow(k as nat),
            ;
        }
        m = m / 2;
        k = k + 1;
    }
    proof {
        lemma_two_pow_mono(0, k as nat);
    }
    let p = two_pow_u128(k);
    let rounded = round_half_even_u128(n as u128, p);
    proof {
        lemma_two_pow_pos(k as nat);
        lemma_two_pow_adds((64 - k) as nat, k as nat);
        // the rounded significand stays within one unit of the truncated one
        assert(rounded <= m + 1);
        assert(rounded * p <= 0x1_0000_0000_0000_0000) by (nonlinear_arith)
            requires
                rounded <= m + 1,
                m < two_pow((64 - k) as nat),
                p == two_pow(k as nat),
                two_pow(64) == 0x1_0000_0000_0000_0000,
                two_pow(64) == two_pow((64 - k) as nat) * two_pow(k as nat),
        ;
    }
    rounded * p
}

/// `n / 2^unit_log2` in rounded hundredths, as two-decimal formatting of the
/// double quotient gives it.
fn scaled_hundredths(n: u64, unit_log2: u32) -> (h: u128)
    requires
        unit_log2 <= 64,
    ensures
        h == hundredths(n as nat, unit_log2 as nat),
{
    let v = nearest_double_value(n);
    let p = two_pow_u128(unit_log2);
    proof {
        lemma_two_pow_pos(unit_log2 as nat);
    }
    round_half_even_u128(v * 100, p)
}

/// Appends a count of hundredths written with exactly two decimals.
fn push_fixed2(s: &mut String, h: u128)
    ensures
        final(s)@ == old(s)@ + fixed2(h as nat),
{
    push_decimal(s, h / 100);
    s.push('.');
    s.push(digit(((h % 100) / 10) as u8));
    s.push(digit((h % 10) as u8));
    assert(final(s)@ =~= old(s)@ + fixed2(h as nat));
}

/// Formats a byte count for people: below 1024 the exact count in `B`,
/// otherwise the count divided by 1024, 1024² or 1024³ with two decimals in
/// `KB`, `MB` or `GB`, whichever is the largest unit not above the count.
/// The quotient is the one of the double nearest to the count, and the two
/// decimals are rounded to nearest, ties to even.
pub fn format_size(bytes: u64) -> (s: String)
    ensures
        s@ == spec_format_size(bytes),
{
    proof {
        lemma_two_pow_values();
    }
    let mut s = String::new();
    if bytes >= 0x4000_0000 {
        let h = scaled_hundredths(bytes, 30);
        push_fixed2(&mut s, h);
        s.push(' ');
        s.push('G');
        s.push('B');
    } else if bytes >= 0x10_0000 {
        let h = scaled_hundredths(bytes, 20);
        push_fixed2(&mut s, h);
        s.push(' ');
        s.push('M');
        s.push('B');
    } else if bytes >= 0x400 {
        let h = scaled_hundredths(bytes, 10);
        push_fixed2(&mut s, h);
        s.push(' ');
        s.push('K');
        s.push('B');
    } else {
        push_decimal(&mut s, bytes as u128);
        s.push(' ');
        s.push('B');
    }
    assert(s@ =~= spec_format_size(bytes));
    s
}

proof fn lemma_round_half_even_monotone(n1: nat, n2: nat, d: nat)
    requires
        n1 <= n2,
        d > 0,
    ensures
        round_half_even(n1, d) <= round_half_even(n2, d),
{
    let q1 = n1 / d;
    let q2 = n2 / d;
    vstd::arithmetic::div_mod::lemma_div_is_ordered(n1 as int, n2 as int, d as int);
    vstd::arithmetic::div_mod::lemma_fundamental_div_mod(n1 as int, d as int);
    vstd::arithmetic::div_mod::lemma_fundamental_div_mod(n2 as int, d as int);
    if q1 == q2 {
        assert(d * q1 == d * q2);
        assert(n1 % d <= n2 % d);
    }
}

proof fn lemma_round_half_even_bounds(n: nat, d: nat)
    requires
        d > 0,
    ensures
        n / d <= round_half_even(n, d) <= n / d + 1,
{
}

proof fn lemma_excess_bounds(n: nat)
    ensures
        n / two_pow(significand_excess(n)) < two_pow(53),
        significand_excess(n) > 0 ==> n / two_pow((significand_excess(n) - 1) as nat) >= two_pow(
            53,
        ),
    decreases n,
{
    lemma_two_pow_pos(53);
    if n < two_pow(53) {
        assert(two_pow(0) == 1);
        assert(n / 1 == n);
    } else {
        let h = n / 2;
        lemma_excess_bounds(h);
        let k1 = significand_excess(h);
        lemma_two_pow_pos(k1);
        vstd::arithmetic::div_mod::lemma_div_denominator(n as int, 2, two_pow(k1) as int);
        assert(two_pow(k1 + 1) == 2 * two_pow(k1));
        assert(2 * two_pow(k1) == two_pow(k1) * 2) by (nonlinear_arith);
        if k1 == 0 {
            assert(two_pow(0) == 1);
            assert(n / 1 == n);
        } else {
            lemma_two_pow_pos((k1 - 1) as nat);
            vstd::arithmetic::div_mod::lemma_div_denominator(
                n as int,
                2,
                two_pow((k1 - 1) as nat) as int,
            );
            assert(two_pow(k1) == 2 * two_pow((k1 - 1) as nat));
            assert(2 * two_pow((k1 - 1) as nat) == two_pow((k1 - 1) as nat) * 2) by (nonlinear_arith);
        }
    }
}

proof fn lemma_excess_monotone(n: nat, m: nat)
    requires
        n <= m,
    ensures
        significand_excess(n) <= significand_excess(m),
    decreases m,
{
    lemma_two_pow_pos(53);
    if n >= two_pow(53) {
        vstd::arithmetic::div_mod::lemma_div_is_ordered(n as int, m as int, 2);
        lemma_excess_monotone(n / 2, m / 2);
    }
}

proof fn lemma_nearest_double_monotone(n: nat, m: nat)
    requires
        n <= m,
    ensures
        nearest_double(n) <= nearest_double(m),
{
    let k1 = significand_excess(n);
    let k2 = significand_excess(m);
    lemma_excess_monotone(n, m);
    lemma_two_pow_pos(k1);
    lemma_two_pow_pos(k2);
    if k1 == k2 {
        lemma_round_half_even_monotone(n, m, two_pow(k1));
        assert(round_half_even(n, two_pow(k1)) * two_pow(k1) <= round_half_even(m, two_pow(k1))
            * two_pow(k1)) by (nonlinear_arith)
            requires
                round_half_even(n, two_pow(k1)) <= round_half_even(m, two_pow(k1)),
        ;
    } else {
        lemma_excess_bounds(n);
        lemma_excess_bounds(m);
        lemma_round_half_even_bounds(n, two_pow(k1));
        lemma_round_half_even_bounds(m, two_pow(k2));
        let r1 = round_half_even(n, two_pow(k1));
        let r2 = round_half_even(m, two_pow(k2));
        // the smaller count rounds to at most 2^53 * 2^k1
        assert(r1 <= two_pow(53));
        // the larger one keeps at least 2^52 * 2^k2
        lemma_two_pow_pos((k2 - 1) as nat);
        vstd::arithmetic::div_mod::lemma_div_denominator(
            m as int,
            two_pow((k2 - 1) as nat) as int,
            2,
        );
        assert(two_pow(k2) == 2 * two_pow((k2 - 1) as nat));
        assert(two_pow((k2 - 1) as nat) * 2 == 2 * two_pow((k2 - 1) as nat)) by (nonlinear_arith);
        assert(two_pow(53) == 2 * two_pow(52));
        assert(m / two_pow(k2) >= two_pow(52)) by {
            vstd::arithmetic::div_mod::lemma_div_is_ordered(
                two_pow(53) as int,
                (m / two_pow((k2 - 1) as nat)) as int,
                2,
            );
            assert(two_pow(53) / 2 == two_pow(52));
        }
        assert(r2 >= two_pow(52));
        lemma_two_pow_adds(53, k1);
        lemma_two_pow_adds(52, k2);
        lemma_two_pow_mono(53 + k1, 52 + k2);
        assert(r1 * two_pow(k1) <= two_pow(53) * two_pow(k1)) by (nonlinear_arith)
            requires
                r1 <= two_pow(53),
        ;
        assert(two_pow(52) * two_pow(k2) <= r2 * two_pow(k2)) by (nonlinear_arith)
            requires
                two_pow(52) <= r2,
        ;
    }
}

/// Which unit the size text uses: 0 for `B`, 1 for `KB`, 2 for `MB`, 3 for
/// `GB`.
pub open spec fn size_unit_rank(bytes: u64) -> nat {
    if bytes >= two_pow(30) {
        3
    } else if bytes >= two_pow(20) {
        2
    } else if bytes >= two_pow(10) {
        1
    } else {
        0
    }
}

/// The number that the size text shows, in hundredths of its unit.
pub open spec fn shown_hundredths(bytes: u64) -> nat {
    if bytes >= two_pow(30) {
        hundredths(bytes as nat, 30)
    } else if bytes >= two_pow(20) {
        hundredths(bytes as nat, 20)
    } else if bytes >= two_pow(10) {
        hundredths(bytes as nat, 10)
    } else {
        bytes as nat * 100
    }
}

/// The value of a run of decimal digits.
pub open spec fn digits_value(s: Seq<char>) -> nat
    decreases s.len(),
{
    if s.len() == 0 {
        0
    } else {
        digits_value(s.drop_last()) * 10 + ((s.last() as nat) - 48) as nat
    }
}

/// The unit that a size text names, read from its end: 3 for ` GB`, 2 for
/// ` MB`, 1 for ` KB`, 0 otherwise (` B`).
pub open spec fn text_unit_rank(s: Seq<char>) -> nat {
    if s.len() >= 2 && s[s.len() - 2] == 'G' {
        3
    } else if s.len() >= 2 && s[s.len() - 2] == 'M' {
        2
    } else if s.len() >= 2 && s[s.len() - 2] == 'K' {
        1
    } else {
        0
    }
}

/// The number in front of the unit of a size text, in hundredths: digits,
/// or digits, `.` and two more digits.
pub open spec fn text_hundredths(s: Seq<char>) -> nat {
    let body = if text_unit_rank(s) > 0 {
        s.take(s.len() - 3)
    } else {
        s.take(s.len() - 2)
    };
    if body.len() >= 3 && body[body.len() - 3] == '.' {
        digits_value(body.take(body.len() - 3)) * 100 + digits_value(body.skip(body.len() - 2))
    } else {
        digits_value(body) * 100
    }
}

proof fn lemma_decimal_digits(n: nat)
    ensures
        digits_value(decimal(n)) == n,
        forall|i: int| 0 <= i < decimal(n).len() ==> #[trigger] decimal(n)[i] != '.',
        decimal(n).len() >= 1,
    decreases n,
{
    let d = decimal(n);
    if n < 10 {
        assert(d.drop_last() =~= Seq::<char>::empty());
        assert(digits_value(d.drop_last()) == 0);
        assert(d.last() == digit_char(n));
        assert((digit_char(n) as nat) == 48 + n);
    } else {
        lemma_decimal_digits(n / 10);
        let init = decimal(n / 10);
        assert(d.drop_last() =~= init);
        assert(d.last() == digit_char(n % 10));
        assert((digit_char(n % 10) as nat) == 48 + n % 10);
        assert forall|i: int| 0 <= i < d.len() implies #[trigger] d[i] != '.' by {
            if i < init.len() {
                assert(d[i] == init[i]);
            } else {
                assert(d[i] == digit_char(n % 10));
            }
        }
    }
}

/// Read back, a size text gives the unit and the number it was made from.
proof fn lemma_size_text_reads_back(bytes: u64)
    ensures
        text_unit_rank(spec_format_size(bytes)) == size_unit_rank(bytes),
        text_hundredths(spec_format_size(bytes)) == shown_hundredths(bytes),
{
    let s = spec_format_size(bytes);
    if size_unit_rank(bytes) == 0 {
        let body = decimal(bytes as nat);
        lemma_decimal_digits(bytes as nat);
        assert(s.take(s.len() - 2) =~= body);
        assert(s[s.len() - 2] == ' ');
        if body.len() >= 3 {
            assert(body[body.len() - 3] != '.');
        }
    } else {
        let h = shown_hundredths(bytes);
        let whole = decimal(h / 100);
        let a = (h % 100) / 10;
        let b = h % 10;
        lemma_decimal_digits(h / 100);
        let body = fixed2(h);
        assert(s.take(s.len() - 3) =~= body);
        assert(s[s.len() - 2] != ' ');
        assert(body.take(body.len() - 3) =~= whole);
        let frac = body.skip(body.len() - 2);
        assert(frac =~= seq![digit_char(a), digit_char(b)]);
        assert(frac.drop_last() =~= seq![digit_char(a)]);
        assert(frac.drop_last().drop_last() =~= Seq::<char>::empty());
        assert(digits_value(frac.drop_last().drop_last()) == 0);
        assert(frac.drop_last().last() == digit_char(a));
        assert(frac.last() == digit_char(b));
        assert(digits_value(frac.drop_last()) == a);
        assert((digit_char(a) as nat) == 48 + a);
        assert((digit_char(b) as nat) == 48 + b);
        assert(digits_value(frac) == a * 10 + b);
        assert(a * 10 + b == h % 100);
    }
}

/// The size text grows with the count: a larger count never shows a
/// smaller unit, and in the same unit never a smaller number. The text is
/// the shown number (whole bytes, or two decimals) followed by its unit.
pub proof fn law_size_text_is_monotone(a: u64, b: u64)
    requires
        a <= b,
    ensures
        size_unit_rank(a) <= size_unit_rank(b),
        size_unit_rank(a) == size_unit_rank(b) ==> shown_hundredths(a) <= shown_hundredths(b),
        text_unit_rank(spec_format_size(a)) <= text_unit_rank(spec_format_size(b)),
        text_unit_rank(spec_format_size(a)) == text_unit_rank(spec_format_size(b))
            ==> text_hundredths(spec_format_size(a)) <= text_hundredths(spec_format_size(b)),
        spec_format_size(b) == if size_unit_rank(b) == 0 {
            decimal(shown_hundredths(b) / 100) + seq![' ', 'B']
        } else {
            fixed2(shown_hundredths(b)) + if size_unit_rank(b) == 3 {
                seq![' ', 'G', 'B']
            } else if size_unit_rank(b) == 2 {
                seq![' ', 'M', 'B']
            } else {
                seq![' ', 'K', 'B']
            }
        },
{
    lemma_size_text_reads_back(a);
    lemma_size_text_reads_back(b);
    lemma_nearest_double_monotone(a as nat, b as nat);
    let na = nearest_double(a as nat);
    let nb = nearest_double(b as nat);
    lemma_two_pow_pos(10);
    lemma_two_pow_pos(20);
    lemma_two_pow_pos(30);
    lemma_round_half_even_monotone(na * 100, nb * 100, two_pow(10));
    lemma_round_half_even_monotone(na * 100, nb * 100, two_pow(20));
    lemma_round_half_even_monotone(na * 100, nb * 100, two_pow(30));
    assert((b as nat * 100) / 100 == b as nat);
}

/// The size of the unit that the size text uses, in bytes: 1024³, 1024²,
/// 1024 or 1.
pub open spec fn unit_bytes(bytes: u64) -> nat {
    if bytes >= two_pow(30) {
        two_pow(30)
    } else if bytes >= two_pow(20) {
        two_pow(20)
    } else if bytes >= two_pow(10) {
        two_pow(10)
    } else {
        1
    }
}

proof fn lemma_round_half_even_error(num: nat, den: nat)
    requires
        den > 0,
    ensures
        -(den as int) <= 2 * (round_half_even(num, den) * den - num) <= den,
{
    let q = num / den;
    let r = num % den;
    vstd::arithmetic::div_mod::lemma_fundamental_div_mod(num as int, den as int);
    assert((q + 1) * den == q * den + den) by (nonlinear_arith);
}

/// The number that a size text shows is the count in its unit rounded to
/// two decimals: it differs by at most half a hundredth of the unit from
/// the quotient of the double nearest to the count, and below 2^53 bytes
/// that double is the count itself.
pub proof fn law_size_text_is_rounded_to_hundredths(bytes: u64)
    ensures
        -(unit_bytes(bytes) as int) <= 2 * (shown_hundredths(bytes) * unit_bytes(bytes) - 100
            * nearest_double(bytes as nat)) <= unit_bytes(bytes),
        bytes < two_pow(53) ==> nearest_double(bytes as nat) == bytes,
{
    lemma_two_pow_values();
    if bytes < two_pow(53) {
        assert(significand_excess(bytes as nat) == 0);
        assert(two_pow(0) == 1);
        assert(round_half_even(bytes as nat, 1) == bytes);
    }
    let nd = nearest_double(bytes as nat);
    assert(nd * 100 == 100 * nd);
    if bytes >= two_pow(10) {
        lemma_round_half_even_error(nd * 100, unit_bytes(bytes));
    } else {
        assert(significand_excess(bytes as nat) == 0);
        assert(two_pow(0) == 1);
        assert(round_half_even(bytes as nat, 1) == bytes);
    }
}

} // verus!

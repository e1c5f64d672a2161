//! Text as the rest of the library reads and writes it: trimming, decimal
//! numbers and fixed-point numbers.

use crate::power::power;
use vstd::prelude::*;

verus! {

/// Which characters a trimming function removes.
#[derive(Clone, Copy, PartialEq, Eq, Structural)]
pub enum Class {
    /// Unicode white space.
    Space,
    /// The character `[`.
    OpenBracket,
    /// The character `]`.
    CloseBracket,
}

impl Class {
    /// Whether `c` belongs to this class.
    pub open spec fn holds(self, c: char) -> bool {
        match self {
            Class::Space => is_space(c),
            Class::OpenBracket => c == '[',
            Class::CloseBracket => c == ']',
        }
    }

    fn has(self, c: char) -> (found: bool)
        ensures
            found == self.holds(c),
    {
        match self {
            Class::Space => is_whitespace(c),
            Class::OpenBracket => c == '[',
            Class::CloseBracket => c == ']',
        }
    }
}

/// The Unicode property `White_Space`.
pub open spec fn is_space(c: char) -> bool {
    let n = c as u32;
    ||| 0x9 <= n <= 0xd
    ||| n == 0x20
    ||| n == 0x85
    ||| n == 0xa0
    ||| n == 0x1680
    ||| 0x2000 <= n <= 0x200a
    ||| n == 0x2028
    ||| n == 0x2029
    ||| n == 0x202f
    ||| n == 0x205f
    ||| n == 0x3000
}

fn is_whitespace(c: char) -> (found: bool)
    ensures
        found == is_space(c),
{
    let n: u32 = c as u32;
    (0x9 <= n && n <= 0xd) || n == 0x20 || n == 0x85 || n == 0xa0 || n == 0x1680 || (0x2000 <= n
        && n <= 0x200a) || n == 0x2028 || n == 0x2029 || n == 0x202f || n == 0x205f || n == 0x3000
}

/// `s` without its longest prefix of characters in `class`.
pub open spec fn without_leading(s: Seq<char>, class: Class) -> Seq<char>
    decreases s.len(),
{
    if s.len() > 0 && class.holds(s[0]) {
        without_leading(s.drop_first(), class)
    } else {
        s
    }
}

/// `s` without its longest suffix of characters in `class`.
pub open spec fn without_trailing(s: Seq<char>, class: Class) -> Seq<char>
    decreases s.len(),
{
    if s.len() > 0 && class.holds(s.last()) {
        without_trailing(s.drop_last(), class)
    } else {
        s
    }
}

/// `s` without white space at its ends.
pub open spec fn trimmed(s: Seq<char>) -> Seq<char> {
    without_trailing(without_leading(s, Class::Space), Class::Space)
}

proof fn lemma_without_leading(s: Seq<char>, class: Class)
    ensures
        without_leading(s, class).len() > 0 ==> !class.holds(without_leading(s, class)[0]),
    decreases s.len(),
{
    if s.len() > 0 && class.holds(s[0]) {
        lemma_without_leading(s.drop_first(), class);
    }
}

proof fn lemma_without_trailing(s: Seq<char>, class: Class)
    ensures
        without_trailing(s, class).len() > 0 ==> !class.holds(without_trailing(s, class).last())
            && without_trailing(s, class)[0] == s[0] && s.len() > 0,
    decreases s.len(),
{
    if s.len() > 0 && class.holds(s.last()) {
        lemma_without_trailing(s.drop_last(), class);
    }
}

/// Text that has been trimmed stays as it is when it is trimmed again.
pub proof fn lemma_trimmed_twice(s: Seq<char>)
    ensures
        trimmed(trimmed(s)) == trimmed(s),
{
    lemma_without_leading(s, Class::Space);
    lemma_without_trailing(without_leading(s, Class::Space), Class::Space);
}

proof fn lemma_without_leading_of_sum(s: Seq<char>, tail: Seq<char>, class: Class)
    ensures
        without_leading(s + tail, class) == if without_leading(s, class).len() == 0 {
            without_leading(tail, class)
        } else {
            without_leading(s, class) + tail
        },
    decreases s.len(),
{
    if s.len() == 0 {
        assert(s + tail =~= tail);
    } else if class.holds(s[0]) {
        lemma_without_leading_of_sum(s.drop_first(), tail, class);
        assert((s + tail).drop_first() =~= s.drop_first() + tail);
    }
}

/// Brackets around a text are not white space, and trimming brackets removes them
/// together with any that the text has at its ends.
pub proof fn lemma_brackets_are_trimmed(s: Seq<char>)
    ensures
        trimmed(seq!['['] + s + seq![']']) == seq!['['] + s + seq![']'],
        without_trailing(
            without_leading(seq!['['] + s + seq![']'], Class::OpenBracket),
            Class::CloseBracket,
        ) == without_trailing(without_leading(s, Class::OpenBracket), Class::CloseBracket),
{
    let all = seq!['['] + s + seq![']'];
    let close = seq![']'];
    assert(all[0] == '[');
    assert(all.last() == ']');
    assert(all.drop_first() =~= s + close);
    lemma_without_leading_of_sum(s, close, Class::OpenBracket);
    let bare = without_leading(s, Class::OpenBracket);
    assert(without_leading(close, Class::OpenBracket) == close);
    assert((bare + close).drop_last() =~= bare);
    assert((bare + close).last() == ']');
    if bare.len() == 0 {
        assert(bare + close =~= close);
    }
}

/// The characters of `s` in order.
pub fn chars_of(s: &str) -> (chars: Vec<char>)
    ensures
        chars@ == s@,
{
    let mut chars: Vec<char> = Vec::new();
    for c in it: s.chars()
        invariant
            it.seq() == s@,
            chars@ == s@.take(it.index() as int),
    {
        chars.push(c);
    }
    chars
}

/// Removes the leading characters of `class`.
pub fn trim_start_matches(s: &str, class: Class) -> (rest: &str)
    ensures
        rest@ == without_leading(s@, class),
{
    let chars = chars_of(s);
    let mut start: usize = 0;
    assert(s@.skip(0) =~= s@);
    while start < chars.len() && class.has(chars[start])
        invariant
            chars@ == s@,
            start <= chars.len(),
            without_leading(s@, class) == without_leading(s@.skip(start as int), class),
        decreases chars.len() - start,
    {
        assert(s@.skip(start as int).drop_first() =~= s@.skip(start + 1));
        start += 1;
    }
    assert(s@.skip(start as int) =~= s@.subrange(start as int, s@.len() as int));
    s.substring_char(start, chars.len())
}

/// Removes the trailing characters of `class`.
pub fn trim_end_matches(s: &str, class: Class) -> (rest: &str)
    ensures
        rest@ == without_trailing(s@, class),
{
    let chars = chars_of(s);
    let mut end: usize = chars.len();
    assert(s@.take(end as int) =~= s@);
    while 0 < end && class.has(chars[end - 1])
        invariant
            chars@ == s@,
            end <= chars.len(),
            without_trailing(s@, class) == without_trailing(s@.take(end as int), class),
        decreases end,
    {
        assert(s@.take(end as int).drop_last() =~= s@.take(end - 1));
        end -= 1;
    }
    assert(s@.take(end as int) =~= s@.subrange(0, end as int));
    s.substring_char(0, end)
}

/// Removes white space at both ends.
pub fn trim(s: &str) -> (rest: &str)
    ensures
        rest@ == trimmed(s@),
{
    trim_end_matches(trim_start_matches(s, Class::Space), Class::Space)
}

/// Whether two texts hold the same characters.
pub fn same_text(a: &str, b: &str) -> (same: bool)
    ensures
        same == (a@ == b@),
{
    a.to_owned() == b.to_owned()
}

/// `a` followed by `b`.
pub fn joined(a: &str, b: &str) -> (out: String)
    ensures
        out@ == a@ + b@,
{
    let mut out = a.to_owned();
    out.append(b);
    out
}

/// `a`, `b` and `c` in a row.
pub fn joined3(a: &str, b: &str, c: &str) -> (out: String)
    ensures
        out@ == a@ + b@ + c@,
{
    let mut out = joined(a, b);
    out.append(c);
    out
}

/// Whether `s` holds `c`.
pub fn has_char(s: &str, c: char) -> (found: bool)
    ensures
        found == s@.contains(c),
{
    let chars = chars_of(s);
    let mut i: usize = 0;
    while i < chars.len()
        invariant
            chars@ == s@,
            i <= chars.len(),
            forall|j: int| 0 <= j < i ==> s@[j] != c,
        decreases chars.len() - i,
    {
        if chars[i] == c {
            assert(s@[i as int] == c);
            return true;
        }
        i += 1;
    }
    false
}

/// The character that writes the digit `d`, for `d` below ten.
pub open spec fn digit(d: nat) -> char {
    (48 + d) as char
}

/// `n` in decimal, without leading zeros.
pub open spec fn decimal(n: nat) -> Seq<char>
    decreases n,
{
    if n < 10 {
        seq![digit(n)]
    } else {
        decimal(n / 10).push(digit(n % 10))
    }
}

/// Whether every character of `s` is one of `0` to `9`.
pub open spec fn is_digits(s: Seq<char>) -> bool {
    forall|i: int| 0 <= i < s.len() ==> '0' <= #[trigger] s[i] <= '9'
}

/// The number that a text of digits writes, most significant digit first.
pub open spec fn digits_value(s: Seq<char>) -> nat
    decreases s.len(),
{
    if s.len() == 0 {
        0
    } else {
        digits_value(s.drop_last()) * 10 + (s.last() as u32 - 48) as nat
    }
}

/// `s` without one leading plus sign.
pub open spec fn unsigned_part(s: Seq<char>) -> Seq<char> {
    if s.len() > 0 && s[0] == '+' {
        s.drop_first()
    } else {
        s
    }
}

/// The number that `s` writes: an optional plus sign, then at least one digit.
pub open spec fn parsed_number(s: Seq<char>) -> Option<nat> {
    let digits = unsigned_part(s);
    if digits.len() > 0 && is_digits(digits) {
        Some(digits_value(digits))
    } else {
        None
    }
}

proof fn lemma_digits_value_prefix(s: Seq<char>, n: int)
    requires
        0 <= n <= s.len(),
    ensures
        digits_value(s.take(n)) <= digits_value(s),
    decreases s.len(),
{
    if n == s.len() {
        assert(s.take(n) =~= s);
    } else {
        lemma_digits_value_prefix(s.drop_last(), n);
        assert(s.drop_last().take(n) =~= s.take(n));
    }
}

/// Reads an unsigned decimal number. Numbers above `u64::MAX` are refused.
pub fn parse_number(s: &str) -> (number: Option<u64>)
    ensures
        number == match parsed_number(s@) {
            Some(n) => if n <= u64::MAX {
                Some(n as u64)
            } else {
                None
            },
            None => None,
        },
{
    let chars = chars_of(s);
    let start: usize = if chars.len() > 0 && chars[0] == '+' {
        1
    } else {
        0
    };
    let ghost digits = unsigned_part(s@);
    assert(digits =~= s@.skip(start as int));
    if chars.len() == start {
        return None;
    }
    let mut value: u64 = 0;
    let mut i: usize = start;
    assert(digits.take(0) =~= Seq::<char>::empty());
    while i < chars.len()
        invariant
            chars@ == s@,
            start <= i <= chars.len(),
            start < chars.len(),
            digits == unsigned_part(s@),
            digits == s@.skip(start as int),
            is_digits(digits.take(i - start)),
            value == digits_value(digits.take(i - start)),
        decreases chars.len() - i,
    {
        let c = chars[i];
        assert(digits[i - start] == c);
        if c < '0' || '9' < c {
            return None;
        }
        let d: u64 = (c as u32 - 48) as u64;
        proof {
            let next = digits.take(i - start + 1);
            assert(next.drop_last() =~= digits.take(i - start));
            assert(next.last() == c);
            lemma_digits_value_prefix(digits, i - start + 1);
        }
        if value > (u64::MAX - d) / 10 {
            assert(value * 10 + d > u64::MAX);
            return None;
        }
        value = value * 10 + d;
        i += 1;
    }
    assert(digits.take(i - start) =~= digits);
    Some(value)
}

/// Writing a number and reading it back gives the number.
pub proof fn lemma_decimal_reads_back(n: nat)
    ensures
        decimal(n).len() > 0,
        is_digits(decimal(n)),
        digits_value(decimal(n)) == n,
        parsed_number(decimal(n)) == Some(n),
        trimmed(decimal(n)) == decimal(n),
    decreases n,
{
    if n >= 10 {
        lemma_decimal_reads_back(n / 10);
        assert(decimal(n).drop_last() =~= decimal(n / 10));
    } else {
        assert(decimal(n).drop_last() =~= Seq::<char>::empty());
    }
    let s = decimal(n);
    assert(s.last() == digit(n % 10));
    assert(digit(n % 10) as u32 == 48 + n % 10);
    reveal_with_fuel(digits_value, 2);
    assert('0' <= s[0] <= '9');
    assert('0' <= s.last() <= '9');
}

/// Different numbers are written differently.
pub proof fn lemma_decimal_injective(a: nat, b: nat)
    requires
        decimal(a) == decimal(b),
    ensures
        a == b,
{
    lemma_decimal_reads_back(a);
    lemma_decimal_reads_back(b);
}

fn append_digit(out: &mut String, d: u128)
    requires
        d < 10,
    ensures
        final(out)@ == old(out)@.push(digit(d as nat)),
{
    let text = match d {
        0 => "0",
        1 => "1",
        2 => "2",
        3 => "3",
        4 => "4",
        5 => "5",
        6 => "6",
        7 => "7",
        8 => "8",
        _ => "9",
    };
    proof {
        reveal_strlit("0");
        reveal_strlit("1");
        reveal_strlit("2");
        reveal_strlit("3");
        reveal_strlit("4");
        reveal_strlit("5");
        reveal_strlit("6");
        reveal_strlit("7");
        reveal_strlit("8");
        reveal_strlit("9");
        assert(text@ =~= seq![digit(d as nat)]);
    }
    out.append(text);
    assert(old(out)@ + seq![digit(d as nat)] =~= old(out)@.push(digit(d as nat)));
}

/// Appends `n` in decimal.
pub fn append_number(out: &mut String, n: u128)
    ensures
        final(out)@ == old(out)@ + decimal(n as nat),
    decreases n,
{
    if n >= 10 {
        append_number(out, n / 10);
    }
    append_digit(out, n % 10);
    assert(final(out)@ =~= old(out)@ + decimal(n as nat));
}

/// `n` in decimal.
pub fn number_text(n: u64) -> (out: String)
    ensures
        out@ == decimal(n as nat),
{
    let mut out = String::new();
    append_number(&mut out, n as u128);
    assert(out@ =~= decimal(n as nat));
    out
}

/// `n / d` rounded to the nearest whole number, halves to the even neighbour.
pub open spec fn rounded(n: nat, d: nat) -> nat {
    let down = n / d;
    let rest = n % d;
    if 2 * rest > d || (2 * rest == d && down % 2 == 1) {
        down + 1
    } else {
        down
    }
}

/// `n / d` rounded to the nearest whole number, halves to the even neighbour.
pub fn divide_rounded(n: u128, d: u128) -> (q: u128)
    requires
        0 < d <= u128::MAX / 2,
        n < u128::MAX,
    ensures
        q == rounded(n as nat, d as nat),
{
    let down: u128 = n / d;
    let rest: u128 = n % d;
    assert(down <= n) by (nonlinear_arith)
        requires
            down == n / d,
            d > 0,
    ;
    if 2 * rest > d || (2 * rest == d && down % 2 == 1) {
        down + 1
    } else {
        down
    }
}

/// A rounded quotient is within one half of the quotient.
pub proof fn lemma_rounded_is_nearest(n: nat, d: nat)
    requires
        d > 0,
    ensures
        2 * n <= d * (2 * rounded(n, d) + 1),
        d * (2 * rounded(n, d)) <= 2 * n + d,
{
    let down = n / d;
    let rest = n % d;
    let q = rounded(n, d);
    vstd::arithmetic::div_mod::lemma_fundamental_div_mod(n as int, d as int);
    assert(n == d * down + rest);
    assert(d * (2 * q + 1) == 2 * (d * q) + d) by (nonlinear_arith);
    assert(d * (2 * q) == 2 * (d * q)) by (nonlinear_arith);
    assert(d * (down + 1) == d * down + d) by (nonlinear_arith);
}

/// A quotient between two whole numbers is rounded to one between them.
pub proof fn lemma_rounded_between(n: nat, d: nat, low: nat, high: nat)
    requires
        d > 0,
        low * d <= n <= high * d,
    ensures
        low <= rounded(n, d) <= high,
{
    let q = rounded(n, d);
    lemma_rounded_is_nearest(n, d);
    if q < low {
        assert(d * (2 * q + 1) <= 2 * (low * d) - d) by (nonlinear_arith)
            requires
                q < low,
        ;
    }
    if q > high {
        assert(d * (2 * q) >= 2 * (high * d) + 2 * d) by (nonlinear_arith)
            requires
                q > high,
        ;
    }
}

/// A greater quotient is not rounded to less.
pub proof fn lemma_rounded_is_monotone(n: nat, d: nat, m: nat, c: nat)
    requires
        d > 0,
        c > 0,
        n * c <= m * d,
    ensures
        rounded(n, d) <= rounded(m, c),
{
    let (p, q) = (rounded(n, d), rounded(m, c));
    if p > q {
        lemma_rounded_is_nearest(n, d);
        lemma_rounded_is_nearest(m, c);
        // Both quotients are then halfway between `q` and `q + 1`.
        assert(d * (2 * p) >= d * (2 * q + 2)) by (nonlinear_arith)
            requires
                p > q,
        ;
        assert(d * (2 * q + 2) == d * (2 * q + 1) + d) by (nonlinear_arith);
        let odd = 2 * q + 1;
        assert(d * odd * c <= 2 * n * c) by (nonlinear_arith)
            requires
                d * odd <= 2 * n,
        ;
        assert(2 * m * d <= c * odd * d) by (nonlinear_arith)
            requires
                2 * m <= c * odd,
        ;
        assert(d * odd * c == c * odd * d) by (nonlinear_arith);
        assert(2 * n * c == 2 * (n * c)) by (nonlinear_arith);
        assert(2 * m * d == 2 * (m * d)) by (nonlinear_arith);
        assert(2 * n == d * odd) by (nonlinear_arith)
            requires
                2 * n * c == d * odd * c,
                c > 0,
        ;
        assert(2 * m == c * odd) by (nonlinear_arith)
            requires
                2 * m * d == c * odd * d,
                d > 0,
        ;
        lemma_rounded_half(n, d, q);
        lemma_rounded_half(m, c, q);
    }
}

proof fn lemma_rounded_half(n: nat, d: nat, q: nat)
    requires
        d > 0,
        2 * n == d * (2 * q + 1),
    ensures
        rounded(n, d) == if q % 2 == 1 {
            q + 1
        } else {
            q
        },
{
    assert(d * (2 * q + 1) == 2 * (q * d) + d) by (nonlinear_arith);
    let rest = (n - q * d) as nat;
    assert(2 * rest == d);
    vstd::arithmetic::div_mod::lemma_fundamental_div_mod_converse(
        n as int,
        d as int,
        q as int,
        rest as int,
    );
}

/// `n / d` with one decimal place.
pub open spec fn one_decimal(n: nat, d: nat) -> Seq<char> {
    let tenths = rounded(n * 10, d);
    decimal(tenths / 10) + seq!['.', digit(tenths % 10)]
}

/// `n / d` with two decimal places.
pub open spec fn two_decimals(n: nat, d: nat) -> Seq<char> {
    let hundredths = rounded(n * 100, d);
    decimal(hundredths / 100) + seq!['.', digit(hundredths / 10 % 10), digit(hundredths % 10)]
}

/// Appends `n / d` with one decimal place.
pub fn append_one_decimal(out: &mut String, n: u128, d: u128)
    requires
        0 < d <= u128::MAX / 2,
        n < u128::MAX / 10,
    ensures
        final(out)@ == old(out)@ + one_decimal(n as nat, d as nat),
{
    let tenths: u128 = divide_rounded(n * 10, d);
    append_number(out, tenths / 10);
    proof {
        reveal_strlit(".");
    }
    out.append(".");
    append_digit(out, tenths % 10);
    assert(final(out)@ =~= old(out)@ + one_decimal(n as nat, d as nat));
}

/// Appends `n / d` with two decimal places.
pub fn append_two_decimals(out: &mut String, n: u128, d: u128)
    requires
        0 < d <= u128::MAX / 2,
        n < u128::MAX / 100,
    ensures
        final(out)@ == old(out)@ + two_decimals(n as nat, d as nat),
{
    let hundredths: u128 = divide_rounded(n * 100, d);
    append_number(out, hundredths / 100);
    proof {
        reveal_strlit(".");
    }
    out.append(".");
    append_digit(out, hundredths / 10 % 10);
    append_digit(out, hundredths % 10);
    assert(final(out)@ =~= old(out)@ + two_decimals(n as nat, d as nat));
}

/// The two digits that write `n` modulo one hundred.
pub open spec fn two_digits(n: nat) -> Seq<char> {
    seq![digit(n / 10 % 10), digit(n % 10)]
}

/// Appends `n` modulo one hundred as two digits.
pub fn append_two_digits(out: &mut String, n: u64)
    ensures
        final(out)@ == old(out)@ + two_digits(n as nat),
{
    append_digit(out, (n / 10 % 10) as u128);
    append_digit(out, (n % 10) as u128);
    assert(final(out)@ =~= old(out)@ + two_digits(n as nat));
}

/// Trimming at the front removes characters of the class and stops at the first other one.
pub proof fn lemma_leading_is_removed(s: Seq<char>, class: Class)
    ensures
        exists|n: int|
            #![trigger s.skip(n)]
            0 <= n <= s.len() && without_leading(s, class) == s.skip(n) && (forall|i: int|
                0 <= i < n ==> class.holds(#[trigger] s[i])) && (n < s.len() ==> !class.holds(s[n])),
    decreases s.len(),
{
    if s.len() > 0 && class.holds(s[0]) {
        let rest = s.drop_first();
        lemma_leading_is_removed(rest, class);
        let n = choose|n: int|
            #![trigger rest.skip(n)]
            0 <= n <= rest.len() && without_leading(rest, class) == rest.skip(n) && (forall|i: int|
                0 <= i < n ==> class.holds(#[trigger] rest[i])) && (n < rest.len() ==> !class.holds(
                rest[n],
            ));
        assert(s.skip(n + 1) =~= rest.skip(n));
        assert forall|i: int| 0 <= i < n + 1 implies class.holds(#[trigger] s[i]) by {
            if i > 0 {
                assert(rest[i - 1] == s[i]);
            }
        }
        assert(n < rest.len() ==> rest[n] == s[n + 1]);
    } else {
        assert(s.skip(0) =~= s);
    }
}

/// Trimming at the end removes characters of the class and stops at the last other one.
pub proof fn lemma_trailing_is_removed(s: Seq<char>, class: Class)
    ensures
        exists|n: int|
            #![trigger s.take(n)]
            0 <= n <= s.len() && without_trailing(s, class) == s.take(n) && (forall|i: int|
                n <= i < s.len() ==> class.holds(#[trigger] s[i])) && (n > 0 ==> !class.holds(
                s[n - 1],
            )),
    decreases s.len(),
{
    if s.len() > 0 && class.holds(s.last()) {
        let rest = s.drop_last();
        lemma_trailing_is_removed(rest, class);
        let n = choose|n: int|
            #![trigger rest.take(n)]
            0 <= n <= rest.len() && without_trailing(rest, class) == rest.take(n) && (forall|
                i: int,
            | n <= i < rest.len() ==> class.holds(#[trigger] rest[i])) && (n > 0 ==> !class.holds(
                rest[n - 1],
            ));
        assert(s.take(n) =~= rest.take(n));
        assert forall|i: int| n <= i < s.len() implies class.holds(#[trigger] s[i]) by {
            if i < rest.len() {
                assert(rest[i] == s[i]);
            }
        }
        assert(n > 0 ==> rest[n - 1] == s[n - 1]);
    } else {
        assert(s.take(s.len() as int) =~= s);
    }
}

/// Text whose ends are not white space is not changed by trimming, and white space around a
/// text makes no difference to what is left.
pub proof fn lemma_trimming_reaches_the_text(s: Seq<char>, space: char)
    requires
        is_space(space),
    ensures
        s.len() > 0 && !is_space(s[0]) && !is_space(s.last()) ==> trimmed(s) == s,
        trimmed(seq![space] + s) == trimmed(s),
        trimmed(s.push(space)) == trimmed(s),
        trimmed(Seq::empty()) == Seq::<char>::empty(),
{
    assert((seq![space] + s).drop_first() =~= s);
    let class = Class::Space;
    assert(s.push(space) =~= s + seq![space]);
    lemma_without_leading_of_sum(s, seq![space], class);
    assert(seq![space].drop_first() =~= Seq::<char>::empty());
    let rest = without_leading(s, class);
    reveal_with_fuel(without_leading, 3);
    assert((rest + seq![space]).drop_last() =~= rest);
    assert((rest + seq![space]).last() == space);
}

/// Each class holds what its name says. Of the characters below 128, white space is the
/// space, the tab, the line feed, the vertical tab, the form feed and the carriage return.
pub proof fn lemma_classes(c: char)
    ensures
        Class::OpenBracket.holds(c) <==> c == '[',
        Class::CloseBracket.holds(c) <==> c == ']',
        Class::Space.holds(c) <==> is_space(c),
        (c as u32) < 128 ==> (is_space(c) <==> c == ' ' || 9 <= c as u32 <= 13),
{
}

/// The digits of a text count by their place: those in front of others count ten times as
/// much for each digit that follows.
pub proof fn lemma_digits_count_by_place(a: Seq<char>, b: Seq<char>)
    ensures
        digits_value(a + b) == digits_value(a) * power(10, b.len()) + digits_value(b),
        forall|c: char| '0' <= c <= '9' ==> #[trigger] digits_value(seq![c]) == c as u32 - '0' as u32,
    decreases b.len(),
{
    assert forall|c: char| '0' <= c <= '9' implies #[trigger] digits_value(seq![c]) == c as u32
        - '0' as u32 by {
        assert(seq![c].drop_last() =~= Seq::<char>::empty());
        assert(digits_value(Seq::<char>::empty()) == 0);
        assert(seq![c].last() == c);
    }
    if b.len() == 0 {
        assert(a + b =~= a);
        let v = digits_value(a);
        assert(v * 1 == v);
    } else {
        let rest = b.drop_last();
        lemma_digits_count_by_place(a, rest);
        assert((a + b).drop_last() =~= a + rest);
        let (v, p, w) = (digits_value(a), power(10, rest.len()), digits_value(rest));
        assert(power(10, b.len()) == 10 * p);
        assert((v * p + w) * 10 == v * (10 * p) + w * 10) by (nonlinear_arith);
    }
}

/// A number is written in digits without a leading zero, and those digits count as much as
/// the number.
pub proof fn lemma_decimal_has_no_leading_zero(n: nat)
    ensures
        is_digits(decimal(n)),
        digits_value(decimal(n)) == n,
        n > 0 ==> decimal(n)[0] != '0',
        n < 10 ==> decimal(n).len() == 1,
        decimal(0) == seq!['0'],
    decreases n,
{
    lemma_decimal_reads_back(n);
    if n >= 10 {
        lemma_decimal_has_no_leading_zero(n / 10);
        assert(decimal(n / 10).len() > 0) by {
            lemma_decimal_reads_back(n / 10);
        }
        assert(decimal(n)[0] == decimal(n / 10)[0]);
    } else {
        assert(digit(n) as u32 == 48 + n);
    }
}

/// A text is read as a number exactly if it is one or more digits, perhaps after one plus
/// sign, and then as what those digits count.
pub proof fn lemma_what_is_read_as_a_number(s: Seq<char>)
    ensures
        parsed_number(s) is Some <==> (s.len() > 0 && is_digits(s)) || (s.len() > 1 && s[0] == '+'
            && is_digits(s.drop_first())),
        s.len() > 0 && is_digits(s) ==> parsed_number(s) == Some(digits_value(s)),
        s.len() > 1 && s[0] == '+' && is_digits(s.drop_first()) ==> parsed_number(s) == Some(
            digits_value(s.drop_first()),
        ),
{
    if s.len() > 0 && s[0] == '+' {
        assert(!is_digits(s)) by {
            assert(!('0' <= s[0] <= '9'));
        }
    }
}

/// A quotient halfway between two whole numbers goes to the even one, and a whole quotient
/// stays as it is.
pub proof fn lemma_halves_go_to_the_even(n: nat, d: nat, q: nat)
    requires
        d > 0,
    ensures
        2 * n == d * (2 * q + 1) ==> rounded(n, d) % 2 == 0 && (rounded(n, d) == q || rounded(n, d)
            == q + 1),
        n == d * q ==> rounded(n, d) == q,
{
    if 2 * n == d * (2 * q + 1) {
        lemma_rounded_half(n, d, q);
    }
    if n == d * q {
        assert(q * d == n) by (nonlinear_arith)
            requires
                n == d * q,
        ;
        lemma_rounded_between(n, d, q, q);
    }
}

/// A number with one decimal place is a whole number, a point and one digit. Without the
/// point it reads as the tenths, rounded.
pub proof fn lemma_one_decimal_reads_as_tenths(n: nat, d: nat)
    ensures
        ({
            let text = one_decimal(n, d);
            let front = text.take(text.len() - 2);
            &&& text.len() >= 3
            &&& text[text.len() - 2] == '.'
            &&& is_digits(front)
            &&& '0' <= text.last() <= '9'
            &&& digits_value(front.push(text.last())) == rounded(n * 10, d)
            &&& digits_value(front) > 0 ==> front[0] != '0'
            &&& digits_value(front) == 0 ==> front == seq!['0']
        }),
{
    let tenths = rounded(n * 10, d);
    let text = one_decimal(n, d);
    let whole = decimal(tenths / 10);
    lemma_decimal_has_no_leading_zero(tenths / 10);
    lemma_decimal_reads_back(tenths / 10);
    assert(text.take(text.len() - 2) =~= whole);
    assert(digit(tenths % 10) as u32 == 48 + tenths % 10);
    assert(whole.push(text.last()).drop_last() =~= whole);
}

/// A number with two decimal places is a whole number, a point and two digits. Without the
/// point it reads as the hundredths, rounded.
pub proof fn lemma_two_decimals_read_as_hundredths(n: nat, d: nat)
    ensures
        ({
            let text = two_decimals(n, d);
            let front = text.take(text.len() - 3);
            &&& text.len() >= 4
            &&& text[text.len() - 3] == '.'
            &&& is_digits(front)
            &&& '0' <= text[text.len() - 2] <= '9'
            &&& '0' <= text.last() <= '9'
            &&& digits_value(front.push(text[text.len() - 2]).push(text.last())) == rounded(
                n * 100,
                d,
            )
            &&& digits_value(front) > 0 ==> front[0] != '0'
            &&& digits_value(front) == 0 ==> front == seq!['0']
        }),
{
    let hundredths = rounded(n * 100, d);
    let text = two_decimals(n, d);
    let whole = decimal(hundredths / 100);
    lemma_decimal_has_no_leading_zero(hundredths / 100);
    lemma_decimal_reads_back(hundredths / 100);
    assert(text.take(text.len() - 3) =~= whole);
    assert(digit(hundredths / 10 % 10) as u32 == 48 + hundredths / 10 % 10);
    assert(digit(hundredths % 10) as u32 == 48 + hundredths % 10);
    let more = whole.push(text[text.len() - 2]);
    assert(more.drop_last() =~= whole);
    assert(more.push(text.last()).drop_last() =~= more);
    let (a, b, c) = (hundredths / 100, hundredths / 10 % 10, hundredths % 10);
    assert(hundredths == 100 * a + 10 * b + c);
    assert(more.last() as u32 - 48 == b);
    assert(digits_value(more) == 10 * a + b);
    assert(digits_value(more.push(text.last())) == 10 * (10 * a + b) + c);
}

/// Two digits read as the number below one hundred that they write.
pub proof fn lemma_two_digits_read_back(n: nat)
    ensures
        two_digits(n).len() == 2,
        is_digits(two_digits(n)),
        digits_value(two_digits(n)) == n % 100,
{
    let s = two_digits(n);
    assert(digit(n / 10 % 10) as u32 == 48 + n / 10 % 10);
    assert(digit(n % 10) as u32 == 48 + n % 10);
    let one = s.drop_last();
    assert(one.drop_last() =~= Seq::<char>::empty());
    assert(digits_value(one.drop_last()) == 0);
    assert(digits_value(one) == n / 10 % 10);
    assert(s.last() == digit(n % 10));
}

/// Digits without a leading zero are how the number that they count is written.
pub proof fn lemma_digits_are_the_decimal(s: Seq<char>)
    requires
        s.len() > 0,
        is_digits(s),
        s.len() > 1 ==> s[0] != '0',
    ensures
        decimal(digits_value(s)) == s,
    decreases s.len(),
{
    let rest = s.drop_last();
    let d = s.last() as u32 - 48;
    assert('0' <= s[s.len() - 1] <= '9');
    assert(digit(d as nat) == s.last());
    if s.len() == 1 {
        assert(rest =~= Seq::<char>::empty());
        assert(digits_value(rest) == 0);
        assert(digits_value(s) == d);
        assert(decimal(d as nat) =~= s);
    } else {
        assert forall|i: int| 0 <= i < rest.len() implies '0' <= #[trigger] rest[i] <= '9' by {
            assert(rest[i] == s[i]);
        }
        lemma_digits_are_the_decimal(rest);
        let v = digits_value(rest);
        if v == 0 {
            lemma_decimal_has_no_leading_zero(0);
            assert(rest[0] == '0');
            assert(rest[0] == s[0]);
        }
        assert(digits_value(s) == v * 10 + d);
        assert((v * 10 + d) / 10 == v);
        assert(decimal((v * 10 + d) as nat) =~= s);
    }
}

} // verus!

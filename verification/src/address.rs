//! The text form of IPv6 addresses: groups of up to four hexadecimal digits,
//! one run of zero groups written `::`, and optionally an IPv4 address in place
//! of the last two groups.

use crate::text::{chars_of, decimal, digits_value, is_digits, lemma_decimal_has_no_leading_zero, lemma_digits_are_the_decimal};
use vstd::prelude::*;

verus! {

/// Where `c` first occurs in `s`.
pub open spec fn index_of(s: Seq<char>, c: char) -> Option<int>
    decreases s.len(),
{
    if s.len() == 0 {
        None
    } else if s[0] == c {
        Some(0)
    } else {
        match index_of(s.drop_first(), c) {
            Some(i) => Some(i + 1),
            None => None,
        }
    }
}

/// Where `::` first occurs in `s`.
pub open spec fn index_of_gap(s: Seq<char>) -> Option<int>
    decreases s.len(),
{
    if s.len() < 2 {
        None
    } else if s[0] == ':' && s[1] == ':' {
        Some(0)
    } else {
        match index_of_gap(s.drop_first()) {
            Some(i) => Some(i + 1),
            None => None,
        }
    }
}

/// Whether `c` is a hexadecimal digit.
pub open spec fn is_hex(c: char) -> bool {
    '0' <= c <= '9' || 'a' <= c <= 'f' || 'A' <= c <= 'F'
}

/// Whether `s` is one group: one to four hexadecimal digits.
pub open spec fn is_group(s: Seq<char>) -> bool {
    &&& 1 <= s.len() <= 4
    &&& forall|i: int| 0 <= i < s.len() ==> is_hex(#[trigger] s[i])
}

/// Whether `s` is a number from 0 to 255 without leading zeros.
pub open spec fn is_octet(s: Seq<char>) -> bool {
    &&& 1 <= s.len() <= 3
    &&& is_digits(s)
    &&& s.len() > 1 ==> s[0] != '0'
    &&& digits_value(s) <= 255
}

/// Whether `s` is `n` octets with dots between them.
pub open spec fn is_dotted(s: Seq<char>, n: nat) -> bool
    decreases n,
{
    if n <= 1 {
        n == 1 && is_octet(s)
    } else {
        match index_of(s, '.') {
            Some(i) => is_octet(s.take(i)) && is_dotted(s.skip(i + 1), (n - 1) as nat),
            None => false,
        }
    }
}

/// How many groups `s` stands for: groups with colons between them, of which the
/// last may be an IPv4 address, worth two groups, where `dotted` allows it.
pub open spec fn group_count(s: Seq<char>, dotted: bool) -> Option<nat>
    decreases s.len(),
{
    match index_of(s, ':') {
        Some(i) => if 0 <= i < s.len() && is_group(s.take(i)) {
            match group_count(s.skip(i + 1), dotted) {
                Some(n) => Some(n + 1),
                None => None,
            }
        } else {
            None
        },
        None => if is_group(s) {
            Some(1)
        } else if dotted && is_dotted(s, 4) {
            Some(2)
        } else {
            None
        },
    }
}

/// Like `group_count`, for a side of `::`, which may be empty.
pub open spec fn side_count(s: Seq<char>, dotted: bool) -> Option<nat> {
    if s.len() == 0 {
        Some(0)
    } else {
        group_count(s, dotted)
    }
}

/// Whether `s` writes an IPv6 address: eight groups, or fewer around one `::`.
pub open spec fn is_ipv6(s: Seq<char>) -> bool {
    match index_of_gap(s) {
        Some(i) => match (side_count(s.take(i), false), side_count(s.skip(i + 2), true)) {
            (Some(before), Some(after)) => before + after <= 7,
            _ => false,
        },
        None => group_count(s, true) == Some(8nat),
    }
}

proof fn lemma_index_of_skip(s: Seq<char>, c: char, n: int)
    requires
        0 <= n <= s.len(),
        forall|j: int| 0 <= j < n ==> s[j] != c,
    ensures
        index_of(s, c) == match index_of(s.skip(n), c) {
            Some(i) => Some(i + n),
            None => None,
        },
    decreases n,
{
    if n == 0 {
        assert(s.skip(0) =~= s);
    } else {
        assert forall|j: int| 0 <= j < n - 1 implies s.drop_first()[j] != c by {
            assert(s.drop_first()[j] == s[j + 1]);
        }
        lemma_index_of_skip(s.drop_first(), c, n - 1);
        assert(s.drop_first().skip(n - 1) =~= s.skip(n));
    }
}

/// What `index_of` finds, position by position.
pub proof fn lemma_index_of(s: Seq<char>, c: char)
    ensures
        match index_of(s, c) {
            Some(i) => 0 <= i < s.len() && s[i] == c && forall|j: int|
                0 <= j < i ==> s[j] != c,
            None => !s.contains(c),
        },
    decreases s.len(),
{
    if s.len() > 0 && s[0] != c {
        let rest = s.drop_first();
        lemma_index_of(rest, c);
        assert(forall|j: int| 0 < j < s.len() ==> s[j] == rest[j - 1]);
    }
}

/// Finds the first `c` in `s`.
pub fn find(s: &str, c: char) -> (found: Option<usize>)
    ensures
        match (found, index_of(s@, c)) {
            (Some(i), Some(j)) => i == j && i < s@.len(),
            (None, None) => true,
            _ => false,
        },
{
    let chars = chars_of(s);
    let mut i: usize = 0;
    while i < chars.len()
        invariant
            chars@ == s@,
            i <= chars.len(),
            forall|j: int| 0 <= j < i ==> s@[j] != c,
        decreases chars.len() - i,
    {
        if chars[i] == c {
            proof {
                lemma_index_of_skip(s@, c, i as int);
                assert(s@.skip(i as int)[0] == c);
            }
            return Some(i);
        }
        i += 1;
    }
    proof {
        lemma_index_of_skip(s@, c, i as int);
        assert(s@.skip(i as int).len() == 0);
    }
    None
}

fn find_gap(s: &str) -> (found: Option<usize>)
    ensures
        match (found, index_of_gap(s@)) {
            (Some(i), Some(j)) => i == j && i + 2 <= s@.len(),
            (None, None) => true,
            _ => false,
        },
{
    let chars = chars_of(s);
    if chars.len() < 2 {
        return None;
    }
    let mut i: usize = 0;
    assert(s@.skip(0) =~= s@);
    while i < chars.len() - 1
        invariant
            chars@ == s@,
            2 <= chars.len(),
            i <= chars.len() - 1,
            index_of_gap(s@) == match index_of_gap(s@.skip(i as int)) {
                Some(j) => Some(i + j),
                None => None,
            },
        decreases chars.len() - i,
    {
        if chars[i] == ':' && chars[i + 1] == ':' {
            return Some(i);
        }
        assert(s@.skip(i as int).drop_first() =~= s@.skip(i + 1));
        i += 1;
    }
    None
}

fn check_group(s: &str) -> (valid: bool)
    ensures
        valid == is_group(s@),
{
    let chars = chars_of(s);
    if chars.len() < 1 || 4 < chars.len() {
        return false;
    }
    let mut i: usize = 0;
    while i < chars.len()
        invariant
            chars@ == s@,
            i <= chars.len(),
            forall|j: int| 0 <= j < i ==> is_hex(#[trigger] s@[j]),
        decreases chars.len() - i,
    {
        let c = chars[i];
        if !(('0' <= c && c <= '9') || ('a' <= c && c <= 'f') || ('A' <= c && c <= 'F')) {
            assert(!is_hex(s@[i as int]));
            return false;
        }
        i += 1;
    }
    true
}

fn check_octet(s: &str) -> (valid: bool)
    ensures
        valid == is_octet(s@),
{
    let chars = chars_of(s);
    if chars.len() < 1 || 3 < chars.len() || (chars.len() > 1 && chars[0] == '0') {
        return false;
    }
    let mut value: u32 = 0;
    let mut i: usize = 0;
    assert(s@.take(0) =~= Seq::<char>::empty());
    while i < chars.len()
        invariant
            chars@ == s@,
            i <= chars.len() <= 3,
            is_digits(s@.take(i as int)),
            value == digits_value(s@.take(i as int)),
            i == 0 ==> value == 0,
            i == 1 ==> value <= 9,
            i == 2 ==> value <= 99,
            i == 3 ==> value <= 999,
        decreases chars.len() - i,
    {
        let c = chars[i];
        assert(s@[i as int] == c);
        if c < '0' || '9' < c {
            return false;
        }
        proof {
            let next = s@.take(i + 1);
            assert(next.drop_last() =~= s@.take(i as int));
            assert(next.last() == c);
        }
        value = value * 10 + (c as u32 - 48);
        i += 1;
    }
    assert(s@.take(i as int) =~= s@);
    value <= 255
}

fn check_dotted(s: &str, n: u64) -> (valid: bool)
    ensures
        valid == is_dotted(s@, n as nat),
    decreases n,
{
    if n <= 1 {
        return n == 1 && check_octet(s);
    }
    match find(s, '.') {
        Some(i) => {
            let len: usize = s.unicode_len();
            assert(s@.take(i as int) =~= s@.subrange(0, i as int));
            assert(s@.skip(i + 1) =~= s@.subrange(i + 1, len as int));
            check_octet(s.substring_char(0, i)) && check_dotted(
                s.substring_char(i + 1, len),
                n - 1,
            )
        },
        None => false,
    }
}

fn count_groups(s: &str, dotted: bool) -> (count: Option<usize>)
    ensures
        match (count, group_count(s@, dotted)) {
            (Some(n), Some(m)) => n == m && n <= s@.len(),
            (None, None) => true,
            _ => false,
        },
    decreases s@.len(),
{
    match find(s, ':') {
        Some(i) => {
            let len: usize = s.unicode_len();
            assert(s@.take(i as int) =~= s@.subrange(0, i as int));
            assert(s@.skip(i + 1) =~= s@.subrange(i + 1, len as int));
            if check_group(s.substring_char(0, i)) {
                match count_groups(s.substring_char(i + 1, len), dotted) {
                    Some(n) => Some(n + 1),
                    None => None,
                }
            } else {
                None
            }
        },
        None => if check_group(s) {
            Some(1)
        } else if dotted && check_dotted(s, 4) {
            proof {
                lemma_index_of(s@, '.');
                reveal_with_fuel(is_dotted, 2);
            }
            Some(2)
        } else {
            None
        },
    }
}

fn count_side(s: &str, dotted: bool) -> (count: Option<usize>)
    ensures
        match (count, side_count(s@, dotted)) {
            (Some(n), Some(m)) => n == m && n <= s@.len(),
            (None, None) => true,
            _ => false,
        },
{
    if s.is_empty() {
        Some(0)
    } else {
        count_groups(s, dotted)
    }
}

/// Tests whether `s` writes an IPv6 address.
pub fn parses_as_ipv6(s: &str) -> (valid: bool)
    ensures
        valid == is_ipv6(s@),
{
    match find_gap(s) {
        Some(i) => {
            let len: usize = s.unicode_len();
            assert(s@.take(i as int) =~= s@.subrange(0, i as int));
            assert(s@.skip(i + 2) =~= s@.subrange(i + 2, len as int));
            let before = count_side(s.substring_char(0, i), false);
            let after = count_side(s.substring_char(i + 2, len), true);
            match (before, after) {
                (Some(before), Some(after)) => before <= 7 && after <= 7 - before,
                _ => false,
            }
        },
        None => match count_groups(s, true) {
            Some(n) => n == 8,
            None => false,
        },
    }
}

/// Texts with `c` between them.
pub open spec fn separated(parts: Seq<Seq<char>>, c: char) -> Seq<char>
    decreases parts.len(),
{
    if parts.len() == 0 {
        Seq::empty()
    } else if parts.len() == 1 {
        parts[0]
    } else {
        parts[0] + seq![c] + separated(parts.drop_first(), c)
    }
}

/// Whether every one of `parts` is one to four hexadecimal digits.
pub open spec fn are_hex_numbers(parts: Seq<Seq<char>>) -> bool {
    forall|k: int|
        0 <= k < parts.len() ==> 1 <= (#[trigger] parts[k]).len() <= 4 && forall|i: int|
            0 <= i < parts[k].len() ==> {
                let c = #[trigger] parts[k][i];
                '0' <= c <= '9' || 'a' <= c <= 'f' || 'A' <= c <= 'F'
            }
}

/// The text of an IPv4 address.
pub open spec fn ipv4_text(octets: (u8, u8, u8, u8)) -> Seq<char> {
    decimal(octets.0 as nat) + seq!['.'] + (decimal(octets.1 as nat) + seq!['.'] + (decimal(
        octets.2 as nat,
    ) + seq!['.'] + decimal(octets.3 as nat)))
}

/// Groups, with an IPv4 address after them if there is one.
pub open spec fn with_ipv4(
    groups: Seq<Seq<char>>,
    octets: Option<(u8, u8, u8, u8)>,
) -> Seq<Seq<char>> {
    match octets {
        Some(octets) => groups.push(ipv4_text(octets)),
        None => groups,
    }
}

/// How many sixteen-bit groups these stand for.
pub open spec fn groups_in(groups: Seq<Seq<char>>, octets: Option<(u8, u8, u8, u8)>) -> nat {
    if octets is Some {
        groups.len() + 2
    } else {
        groups.len()
    }
}

/// An octet is the decimal text of a number from 0 to 255.
pub proof fn lemma_octets_are_bytes(s: Seq<char>)
    ensures
        is_octet(s) <==> exists|n: u8| s == #[trigger] decimal(n as nat),
{
    if is_octet(s) {
        lemma_digits_are_the_decimal(s);
        let n = digits_value(s) as u8;
        assert(s == decimal(n as nat));
    }
    if exists|n: u8| s == #[trigger] decimal(n as nat) {
        let n = choose|n: u8| s == #[trigger] decimal(n as nat);
        lemma_byte_is_octet(n);
    }
}

proof fn lemma_byte_is_octet(n: u8)
    ensures
        is_octet(decimal(n as nat)),
        !decimal(n as nat).contains('.'),
        !decimal(n as nat).contains(':'),
{
    let s = decimal(n as nat);
    lemma_decimal_has_no_leading_zero(n as nat);
    reveal_with_fuel(decimal, 4);
    assert forall|i: int| 0 <= i < s.len() implies s[i] != '.' && s[i] != ':' by {
        assert('0' <= s[i] <= '9');
    }
}

proof fn lemma_index_after(front: Seq<char>, c: char, rest: Seq<char>)
    requires
        !front.contains(c),
    ensures
        index_of(front + seq![c] + rest, c) == Some(front.len() as int),
        (front + seq![c] + rest).take(front.len() as int) == front,
        (front + seq![c] + rest).skip(front.len() as int + 1) == rest,
{
    let s = front + seq![c] + rest;
    lemma_index_of(s, c);
    assert(s[front.len() as int] == c);
    if let Some(i) = index_of(s, c) {
        if i < front.len() {
            assert(s[i] == front[i]);
            assert(front.contains(front[i]));
        }
    }
    assert(s.take(front.len() as int) =~= front);
    assert(s.skip(front.len() as int + 1) =~= rest);
}

proof fn lemma_split_at(s: Seq<char>, c: char, i: int)
    requires
        index_of(s, c) == Some(i),
    ensures
        0 <= i < s.len(),
        s == s.take(i) + seq![c] + s.skip(i + 1),
{
    lemma_index_of(s, c);
    assert(s =~= s.take(i) + seq![c] + s.skip(i + 1));
}

proof fn lemma_dotted_step(n: u8, rest: Seq<char>, count: nat)
    requires
        count >= 1,
    ensures
        is_dotted(decimal(n as nat) + seq!['.'] + rest, count + 1) == is_dotted(rest, count),
{
    lemma_byte_is_octet(n);
    lemma_index_after(decimal(n as nat), '.', rest);
}

proof fn lemma_dotted_first(s: Seq<char>, count: nat) -> (octet: u8)
    requires
        count >= 1,
        is_dotted(s, count),
    ensures
        count == 1 ==> s == decimal(octet as nat),
        count > 1 ==> exists|rest: Seq<char>|
            s == decimal(octet as nat) + seq!['.'] + rest && #[trigger] is_dotted(
                rest,
                (count - 1) as nat,
            ),
{
    if count == 1 {
        lemma_octets_are_bytes(s);
        choose|n: u8| s == #[trigger] decimal(n as nat)
    } else {
        let i = index_of(s, '.')->0;
        lemma_split_at(s, '.', i);
        lemma_octets_are_bytes(s.take(i));
        assert(is_dotted(s.skip(i + 1), (count - 1) as nat));
        choose|n: u8| s.take(i) == #[trigger] decimal(n as nat)
    }
}

/// Four octets with dots between them are the text of an IPv4 address, and nothing else is.
pub proof fn lemma_dotted_is_ipv4(s: Seq<char>)
    ensures
        is_dotted(s, 4) <==> exists|octets: (u8, u8, u8, u8)| s == #[trigger] ipv4_text(octets),
{
    if is_dotted(s, 4) {
        let a = lemma_dotted_first(s, 4);
        let r = choose|r: Seq<char>|
            s == decimal(a as nat) + seq!['.'] + r && #[trigger] is_dotted(r, 3);
        let b = lemma_dotted_first(r, 3);
        let t = choose|t: Seq<char>|
            r == decimal(b as nat) + seq!['.'] + t && #[trigger] is_dotted(t, 2);
        let c = lemma_dotted_first(t, 2);
        let u = choose|u: Seq<char>|
            t == decimal(c as nat) + seq!['.'] + u && #[trigger] is_dotted(u, 1);
        let d = lemma_dotted_first(u, 1);
        assert(s == ipv4_text((a, b, c, d)));
    }
    if exists|octets: (u8, u8, u8, u8)| s == #[trigger] ipv4_text(octets) {
        let octets = choose|octets: (u8, u8, u8, u8)| s == #[trigger] ipv4_text(octets);
        lemma_ipv4_is_dotted(octets);
    }
}

proof fn lemma_ipv4_is_dotted(octets: (u8, u8, u8, u8))
    ensures
        is_dotted(ipv4_text(octets), 4),
        !ipv4_text(octets).contains(':'),
        ipv4_text(octets).contains('.'),
        ipv4_text(octets).len() > 0,
{
    let (a, b, c, d) = octets;
    lemma_byte_is_octet(a);
    lemma_byte_is_octet(b);
    lemma_byte_is_octet(c);
    lemma_byte_is_octet(d);
    let one = decimal(d as nat);
    let two = decimal(c as nat) + seq!['.'] + one;
    let three = decimal(b as nat) + seq!['.'] + two;
    lemma_dotted_step(c, one, 1);
    lemma_dotted_step(b, two, 2);
    lemma_dotted_step(a, three, 3);
    let s = ipv4_text(octets);
    let (p, q, r) = (decimal(a as nat), decimal(b as nat), decimal(c as nat));
    assert(s[p.len() as int] == '.');
    assert forall|i: int| 0 <= i < s.len() implies s[i] != ':' by {
        if s[i] == ':' {
            let j = i - p.len() - 1;
            let k = j - q.len() - 1;
            let l = k - r.len() - 1;
            if i < p.len() {
                assert(p[i] == ':');
            } else if i > p.len() && j < q.len() {
                assert(q[j] == ':');
            } else if j > q.len() && k < r.len() {
                assert(r[k] == ':');
            } else if k > r.len() {
                assert(one[l] == ':');
            }
        }
    }
}

proof fn lemma_hex_has_no_colon(s: Seq<char>)
    ensures
        is_group(s) ==> !s.contains(':') && !s.contains('.'),
        is_group(s) == are_hex_numbers(seq![s]),
{
    if is_group(s) {
        assert forall|i: int| 0 <= i < s.len() implies s[i] != ':' && s[i] != '.' by {
            assert(is_hex(s[i]));
        }
        assert(are_hex_numbers(seq![s]));
    }
    if are_hex_numbers(seq![s]) {
        assert(seq![s][0] == s);
        assert forall|i: int| 0 <= i < s.len() implies is_hex(#[trigger] s[i]) by {
            assert(seq![s][0][i] == s[i]);
        }
    }
}

proof fn lemma_hex_numbers_are_groups(parts: Seq<Seq<char>>, k: int)
    requires
        are_hex_numbers(parts),
        0 <= k < parts.len(),
    ensures
        is_group(parts[k]),
{
    assert(1 <= parts[k].len() <= 4);
    assert forall|i: int| 0 <= i < parts[k].len() implies is_hex(#[trigger] parts[k][i]) by {
    }
}

/// Groups with colons between them count one each, and an IPv4 address after them counts
/// two.
pub proof fn lemma_groups_are_counted(
    groups: Seq<Seq<char>>,
    octets: Option<(u8, u8, u8, u8)>,
    dotted: bool,
)
    requires
        are_hex_numbers(groups),
        groups_in(groups, octets) > 0,
        octets is Some ==> dotted,
    ensures
        group_count(separated(with_ipv4(groups, octets), ':'), dotted) == Some(
            groups_in(groups, octets),
        ),
    decreases groups.len(),
{
    let parts = with_ipv4(groups, octets);
    let s = separated(parts, ':');
    if let Some(octets) = octets {
        lemma_ipv4_is_dotted(octets);
    }
    if parts.len() == 1 {
        lemma_index_of(s, ':');
        lemma_hex_has_no_colon(s);
        if groups.len() == 1 {
            lemma_hex_numbers_are_groups(groups, 0);
        }
    } else {
        let rest = groups.drop_first();
        lemma_hex_numbers_are_groups(groups, 0);
        lemma_hex_has_no_colon(groups[0]);
        assert(with_ipv4(rest, octets) =~= parts.drop_first());
        assert forall|k: int| 0 <= k < rest.len() implies 1 <= (#[trigger] rest[k]).len() <= 4 by {
            assert(rest[k] == groups[k + 1]);
        }
        assert forall|k: int, i: int| 0 <= k < rest.len() && 0 <= i < rest[k].len() implies {
            let c = #[trigger] rest[k][i];
            '0' <= c <= '9' || 'a' <= c <= 'f' || 'A' <= c <= 'F'
        } by {
            assert(rest[k] == groups[k + 1]);
            assert(1 <= groups[k + 1].len() <= 4);
        }
        assert(are_hex_numbers(rest));
        lemma_groups_are_counted(rest, octets, dotted);
        lemma_index_after(groups[0], ':', separated(parts.drop_first(), ':'));
    }
}

/// What is counted as groups is groups with colons between them, and perhaps an IPv4 address
/// after them where it may be one.
pub proof fn lemma_what_is_counted_is_groups(s: Seq<char>, dotted: bool)
    requires
        group_count(s, dotted) is Some,
    ensures
        exists|groups: Seq<Seq<char>>, octets: Option<(u8, u8, u8, u8)>|
            {
                &&& are_hex_numbers(groups)
                &&& octets is Some ==> dotted
                &&& s == separated(#[trigger] with_ipv4(groups, octets), ':')
                &&& group_count(s, dotted) == Some(groups_in(groups, octets))
            },
    decreases s.len(),
{
    let none = None::<(u8, u8, u8, u8)>;
    match index_of(s, ':') {
        Some(i) => {
            lemma_split_at(s, ':', i);
            let (front, back) = (s.take(i), s.skip(i + 1));
            lemma_what_is_counted_is_groups(back, dotted);
            let (groups, octets) = choose|
                groups: Seq<Seq<char>>,
                octets: Option<(u8, u8, u8, u8)>,
            |
                {
                    &&& are_hex_numbers(groups)
                    &&& octets is Some ==> dotted
                    &&& back == separated(#[trigger] with_ipv4(groups, octets), ':')
                    &&& group_count(back, dotted) == Some(groups_in(groups, octets))
                };
            let more = seq![front] + groups;
            lemma_hex_has_no_colon(front);
            assert forall|k: int| 0 <= k < more.len() implies 1 <= (#[trigger] more[k]).len()
                <= 4 && forall|i: int|
                0 <= i < more[k].len() ==> {
                    let c = #[trigger] more[k][i];
                    '0' <= c <= '9' || 'a' <= c <= 'f' || 'A' <= c <= 'F'
                } by {
                if k == 0 {
                    assert(more[k] == seq![front][0]);
                } else {
                    assert(more[k] == groups[k - 1]);
                }
            }
            assert(are_hex_numbers(more));
            let parts = with_ipv4(more, octets);
            assert(parts.drop_first() =~= with_ipv4(groups, octets));
            assert(parts[0] == front);
            if with_ipv4(groups, octets).len() == 0 {
                assert(back.len() == 0);
                lemma_index_of(back, ':');
                assert(!is_group(back));
                lemma_dotted_is_ipv4(back);
                if is_dotted(back, 4) {
                    let octets = choose|octets: (u8, u8, u8, u8)|
                        back == #[trigger] ipv4_text(octets);
                    lemma_ipv4_is_dotted(octets);
                }
                assert(false);
            }
            assert(s == separated(with_ipv4(more, octets), ':'));
        },
        None => {
            if is_group(s) {
                lemma_hex_has_no_colon(s);
                assert(s == separated(with_ipv4(seq![s], none), ':'));
            } else {
                lemma_dotted_is_ipv4(s);
                let octets = choose|octets: (u8, u8, u8, u8)| s == #[trigger] ipv4_text(octets);
                let groups = Seq::<Seq<char>>::empty();
                assert(are_hex_numbers(groups));
                assert(with_ipv4(groups, Some(octets)).len() == 1);
                assert(s == separated(with_ipv4(groups, Some(octets)), ':'));
            }
        },
    }
}

/// The first `::` of a text is two colons side by side, with no such two before it.
pub proof fn lemma_gap_is_the_first(s: Seq<char>)
    ensures
        index_of_gap(s) matches Some(i) ==> 0 <= i < s.len() - 1 && s[i] == ':' && s[i + 1] == ':',
        forall|j: int|
            0 <= j < s.len() - 1 && (index_of_gap(s) matches Some(i) ==> j < i) ==> !(
            #[trigger] s[j] == ':' && s[j + 1] == ':'),
    decreases s.len(),
{
    if s.len() >= 2 && !(s[0] == ':' && s[1] == ':') {
        let rest = s.drop_first();
        lemma_gap_is_the_first(rest);
        if let Some(i) = index_of_gap(rest) {
            assert(rest[i] == s[i + 1] && rest[i + 1] == s[i + 2]);
        }
        assert forall|j: int|
            0 <= j < s.len() - 1 && (index_of_gap(s) matches Some(i) ==> j < i) implies !(
        #[trigger] s[j] == ':' && s[j + 1] == ':') by {
            if j > 0 {
                assert(rest[j - 1] == s[j] && rest[j] == s[j + 1]);
            }
        }
    }
}

proof fn lemma_groups_have_no_gap(groups: Seq<Seq<char>>, octets: Option<(u8, u8, u8, u8)>)
    requires
        are_hex_numbers(groups),
    ensures
        ({
            let s = separated(with_ipv4(groups, octets), ':');
            &&& forall|j: int| 0 <= j < s.len() - 1 ==> !(#[trigger] s[j] == ':' && s[j + 1] == ':')
            &&& s.len() > 0 ==> s[0] != ':' && s.last() != ':'
            &&& s.len() == 0 ==> groups.len() == 0 && octets is None
        }),
    decreases groups.len(),
{
    let parts = with_ipv4(groups, octets);
    let s = separated(parts, ':');
    if let Some(octets) = octets {
        lemma_ipv4_is_dotted(octets);
    }
    if groups.len() > 0 {
        lemma_hex_numbers_are_groups(groups, 0);
        lemma_hex_has_no_colon(groups[0]);
    }
    if parts.len() == 1 {
        assert(!s.contains(':'));
        assert(forall|j: int| 0 <= j < s.len() ==> s.contains(#[trigger] s[j]));
    } else if parts.len() > 1 {
        let front = groups[0];
        let rest = groups.drop_first();
        assert(with_ipv4(rest, octets) =~= parts.drop_first());
        assert forall|k: int| 0 <= k < rest.len() implies 1 <= (#[trigger] rest[k]).len() <= 4
            && forall|i: int|
            0 <= i < rest[k].len() ==> {
                let c = #[trigger] rest[k][i];
                '0' <= c <= '9' || 'a' <= c <= 'f' || 'A' <= c <= 'F'
            } by {
            assert(rest[k] == groups[k + 1]);
        }
        lemma_groups_have_no_gap(rest, octets);
        let back = separated(parts.drop_first(), ':');
        assert(back.len() > 0);
        assert(s == front + seq![':'] + back);
        assert(forall|j: int| 0 <= j < front.len() ==> front.contains(#[trigger] front[j]));
        assert(s[0] == front[0]);
        assert(s.last() == back.last());
        assert forall|j: int| 0 <= j < s.len() - 1 implies !(#[trigger] s[j] == ':' && s[j + 1]
            == ':') by {
            if j < front.len() {
                assert(s[j] == front[j]);
            } else if j == front.len() {
                assert(s[j + 1] == back[0]);
            } else {
                let k = j - front.len() - 1;
                assert(s[j] == back[k] && s[j + 1] == back[k + 1]);
            }
        }
    }
}

/// Eight groups with colons between them are an IPv6 address, and so are up to seven with
/// `::` in front of them, behind them or between two of them. The last two of either may be
/// written as an IPv4 address.
pub proof fn lemma_groups_make_an_ipv6_address(
    left: Seq<Seq<char>>,
    right: Seq<Seq<char>>,
    octets: Option<(u8, u8, u8, u8)>,
)
    requires
        are_hex_numbers(left),
        are_hex_numbers(right),
    ensures
        is_ipv6(separated(with_ipv4(right, octets), ':')) <==> groups_in(right, octets) == 8,
        is_ipv6(separated(left, ':') + seq![':', ':'] + separated(with_ipv4(right, octets), ':'))
            <==> left.len() + groups_in(right, octets) <= 7,
{
    let none = None::<(u8, u8, u8, u8)>;
    let a = separated(left, ':');
    let b = separated(with_ipv4(right, octets), ':');
    assert(with_ipv4(left, none) == left);
    lemma_groups_have_no_gap(left, none);
    lemma_groups_have_no_gap(right, octets);
    if left.len() > 0 {
        lemma_groups_are_counted(left, none, false);
    }
    if groups_in(right, octets) > 0 {
        lemma_groups_are_counted(right, octets, true);
    }
    lemma_gap_is_the_first(b);
    if b.len() == 0 {
        lemma_index_of(b, ':');
        lemma_dotted_is_ipv4(b);
        if is_dotted(b, 4) {
            let octets = choose|octets: (u8, u8, u8, u8)| b == #[trigger] ipv4_text(octets);
            lemma_ipv4_is_dotted(octets);
        }
    }
    let s = a + seq![':', ':'] + b;
    let n = a.len() as int;
    lemma_gap_is_the_first(s);
    assert(s[n] == ':' && s[n + 1] == ':');
    if let Some(i) = index_of_gap(s) {
        if i < n {
            assert(s[i] == a[i]);
            assert(i + 1 < n ==> s[i + 1] == a[i + 1]);
        }
    }
    assert(index_of_gap(s) == Some(n));
    assert(s.take(n) =~= a);
    assert(s.skip(n + 2) =~= b);
    if left.len() == 0 {
        assert(a.len() == 0);
    }
    if groups_in(right, octets) == 0 {
        assert(b.len() == 0);
    }
}

/// Every IPv6 address is written in one of those ways.
pub proof fn lemma_ipv6_addresses_are_groups(s: Seq<char>)
    requires
        is_ipv6(s),
    ensures
        exists|left: Seq<Seq<char>>, right: Seq<Seq<char>>, octets: Option<(u8, u8, u8, u8)>|
            #![trigger are_hex_numbers(left), with_ipv4(right, octets)]
            {
                let end = separated(with_ipv4(right, octets), ':');
                &&& are_hex_numbers(left)
                &&& are_hex_numbers(right)
                &&& (left.len() == 0 && groups_in(right, octets) == 8 && s == end) || (left.len()
                    + groups_in(right, octets) <= 7 && s == separated(left, ':') + seq![':', ':']
                    + end)
            },
{
    let none = None::<(u8, u8, u8, u8)>;
    let empty = Seq::<Seq<char>>::empty();
    assert(are_hex_numbers(empty));
    match index_of_gap(s) {
        Some(i) => {
            lemma_gap_is_the_first(s);
            let (a, b) = (s.take(i), s.skip(i + 2));
            assert(s =~= a + seq![':', ':'] + b);
            let left = if a.len() == 0 {
                empty
            } else {
                lemma_what_is_counted_is_groups(a, false);
                let (left, octets) = choose|
                    groups: Seq<Seq<char>>,
                    octets: Option<(u8, u8, u8, u8)>,
                |
                    {
                        &&& are_hex_numbers(groups)
                        &&& octets is Some ==> false
                        &&& a == separated(#[trigger] with_ipv4(groups, octets), ':')
                        &&& group_count(a, false) == Some(groups_in(groups, octets))
                    };
                left
            };
            assert(a =~= separated(left, ':'));
            if b.len() == 0 {
                assert(with_ipv4(empty, none).len() == 0);
                assert(b =~= separated(with_ipv4(empty, none), ':'));
            } else {
                lemma_what_is_counted_is_groups(b, true);
            }
        },
        None => {
            lemma_what_is_counted_is_groups(s, true);
        },
    }
}

} // verus!

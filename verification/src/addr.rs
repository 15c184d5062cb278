//! IP addresses as numbers, and their notation in text.

use vstd::prelude::*;

use crate::text::{all_digits, copy_range, digits_value, field_views, parse_decimal, split, split_chars};

verus! {

/// An IP address of either family, as a number: the octets of the address
/// read as one big-endian integer.
#[derive(Debug, Copy, Clone, Hash, PartialEq, Eq, Structural)]
pub enum IpAddress {
    Ipv4(u32),
    Ipv6(u128),
}

/// The number that `s` writes as one octet of a dotted IPv4 address: one to
/// three digits without a leading zero, at most 255.
pub open spec fn octet(s: Seq<char>) -> Option<nat> {
    if 1 <= s.len() <= 3 && all_digits(s) && (s.len() == 1 || s[0] != '0') && digits_value(s)
        <= 255 {
        Some(digits_value(s))
    } else {
        None
    }
}

/// The IPv4 address that `s` writes in dotted decimal: exactly four octets
/// with a `.` between neighbours, the highest octet first.
pub open spec fn ipv4_text(s: Seq<char>) -> Option<nat> {
    let parts = split(s, '.');
    if parts.len() == 4 {
        match (octet(parts[0]), octet(parts[1]), octet(parts[2]), octet(parts[3])) {
            (Some(a), Some(b), Some(c), Some(d)) => Some(((a * 256 + b) * 256 + c) * 256 + d),
            _ => None,
        }
    } else {
        None
    }
}

/// Reads one octet of a dotted IPv4 address.
pub fn parse_octet(s: &Vec<char>) -> (r: Option<u8>)
    ensures
        r == match octet(s@) {
            Some(v) => Some(v as u8),
            None => None::<u8>,
        },
        octet(s@) matches Some(v) ==> v <= 255,
{
    if s.len() < 1 || s.len() > 3 {
        return None;
    }
    if s[0] == '+' || (s.len() > 1 && s[0] == '0') {
        return None;
    }
    match parse_decimal(s, 255) {
        Some(v) => Some(v as u8),
        None => None,
    }
}

/// Reads an IPv4 address written in dotted decimal.
pub fn parse_ipv4(s: &Vec<char>) -> (r: Option<u32>)
    ensures
        r == match ipv4_text(s@) {
            Some(v) => Some(v as u32),
            None => None::<u32>,
        },
        ipv4_text(s@) matches Some(v) ==> v <= u32::MAX,
{
    let parts = split_chars(s, '.');
    if parts.len() != 4 {
        return None;
    }
    proof {
        assert(field_views(parts@)[0] == parts@[0]@);
        assert(field_views(parts@)[1] == parts@[1]@);
        assert(field_views(parts@)[2] == parts@[2]@);
        assert(field_views(parts@)[3] == parts@[3]@);
    }
    let a = parse_octet(&parts[0]);
    let b = parse_octet(&parts[1]);
    let c = parse_octet(&parts[2]);
    let d = parse_octet(&parts[3]);
    match (a, b, c, d) {
        (Some(a), Some(b), Some(c), Some(d)) => {
            let high: u32 = (a as u32 * 256 + b as u32) * 256 + c as u32;
            Some(high * 256 + d as u32)
        },
        _ => None,
    }
}

/// Whether `c` is a hexadecimal digit of either case.
pub open spec fn is_hex_digit(c: char) -> bool {
    ('0' <= c <= '9') || ('a' <= c <= 'f') || ('A' <= c <= 'F')
}

/// The value of a hexadecimal digit.
pub open spec fn hex_digit_value(c: char) -> nat {
    if '0' <= c <= '9' {
        (c as nat - '0' as nat) as nat
    } else if 'a' <= c <= 'f' {
        (c as nat - 'a' as nat + 10) as nat
    } else {
        (c as nat - 'A' as nat + 10) as nat
    }
}

/// The number that the hexadecimal digits of `s` write.
pub open spec fn hex_value(s: Seq<char>) -> nat
    decreases s.len(),
{
    if s.len() == 0 {
        0
    } else {
        hex_value(s.drop_last()) * 16 + hex_digit_value(s.last())
    }
}

/// Whether every character of `s` is a hexadecimal digit.
pub open spec fn all_hex_digits(s: Seq<char>) -> bool {
    forall|i: int| 0 <= i < s.len() ==> is_hex_digit(#[trigger] s[i])
}

/// The number that `s` writes as one group of an IPv6 address: one to four
/// hexadecimal digits.
pub open spec fn hex_group(s: Seq<char>) -> Option<nat> {
    if 1 <= s.len() <= 4 && all_hex_digits(s) {
        Some(hex_value(s))
    } else {
        None
    }
}

/// `65536^n`: the weight of a group that has `n` groups after it.
pub open spec fn group_weight(n: nat) -> nat
    decreases n,
{
    if n == 0 {
        1
    } else {
        65536 * group_weight((n - 1) as nat)
    }
}

/// Appends the groups written by `parts` to the number `init`, sixteen bits
/// each; `None` if a part is no group.
pub open spec fn fold_groups(init: nat, parts: Seq<Seq<char>>) -> Option<nat>
    decreases parts.len(),
{
    if parts.len() == 0 {
        Some(init)
    } else {
        match (fold_groups(init, parts.drop_last()), hex_group(parts.last())) {
            (Some(high), Some(group)) => Some(high * 65536 + group),
            _ => None,
        }
    }
}

/// The parts of `s` between colons; none at all for an empty text.
pub open spec fn group_list(s: Seq<char>) -> Seq<Seq<char>> {
    if s.len() == 0 {
        Seq::<Seq<char>>::empty()
    } else {
        split(s, ':')
    }
}

/// Two colons stand at `i` and `i + 1` in `s`.
pub open spec fn double_colon_at(s: Seq<char>, i: int) -> bool {
    0 <= i < s.len() - 1 && s[i] == ':' && s[i + 1] == ':'
}

/// `i` is the place of the first double colon of `s`.
pub open spec fn first_double_colon(s: Seq<char>, i: int) -> bool {
    double_colon_at(s, i) && forall|j: int| 0 <= j < i ==> !double_colon_at(s, j)
}

/// No double colon stands in `s`.
pub open spec fn no_double_colon(s: Seq<char>) -> bool {
    forall|j: int| !double_colon_at(s, j)
}

/// Whether the last of `parts` is an IPv4 address in dotted decimal, which
/// stands for the last two groups of an address.
pub open spec fn has_ipv4_tail(parts: Seq<Seq<char>>) -> bool {
    parts.len() > 0 && ipv4_text(parts.last()) is Some
}

/// The number of groups that `parts` write: one for each part, and two for a
/// dotted IPv4 address at the end.
pub open spec fn group_count(parts: Seq<Seq<char>>) -> nat {
    if has_ipv4_tail(parts) {
        parts.len() + 1
    } else {
        parts.len()
    }
}

/// Appends what `parts` write to the number `init`: groups of sixteen bits
/// each, the last of which may be written together as a dotted IPv4 address
/// of thirty-two bits. `None` if a part is neither.
pub open spec fn fold_parts(init: nat, parts: Seq<Seq<char>>) -> Option<nat> {
    if has_ipv4_tail(parts) {
        match fold_groups(init, parts.drop_last()) {
            Some(high) => Some(high * 0x1_0000_0000 + ipv4_text(parts.last())->Some_0),
            None => None,
        }
    } else {
        fold_groups(init, parts)
    }
}

/// The address written by the groups before a double colon at `i` and what
/// stands after it, with as many zero groups between them as make eight in
/// all; the double colon stands for at least one group. A dotted IPv4 address
/// may end the address, not stand before the double colon.
pub open spec fn ipv6_elided(s: Seq<char>, i: int) -> Option<nat> {
    let head = group_list(s.subrange(0, i));
    let tail = group_list(s.subrange(i + 2, s.len() as int));
    if head.len() + group_count(tail) <= 7 {
        match fold_groups(0, head) {
            Some(high) => fold_parts(
                high * group_weight((8 - head.len() - group_count(tail)) as nat),
                tail,
            ),
            None => None,
        }
    } else {
        None
    }
}

/// The address written by eight groups with a colon between neighbours.
pub open spec fn ipv6_full(s: Seq<char>) -> Option<nat> {
    let parts = split(s, ':');
    if group_count(parts) == 8 {
        fold_parts(0, parts)
    } else {
        None
    }
}

/// The IPv6 address that `s` writes: eight groups of hexadecimal digits, the
/// highest first, or fewer groups around one double colon. The last two
/// groups may be written together as an IPv4 address in dotted decimal.
pub open spec fn ipv6_text(s: Seq<char>) -> Option<nat> {
    if exists|i: int| first_double_colon(s, i) {
        ipv6_elided(s, choose|i: int| first_double_colon(s, i))
    } else {
        ipv6_full(s)
    }
}

/// Appending groups to a number below `65536^count` gives a number below
/// `65536^(count + parts.len())`.
pub proof fn lemma_fold_groups_bound(init: nat, count: nat, parts: Seq<Seq<char>>)
    requires
        init < group_weight(count),
    ensures
        fold_groups(init, parts) matches Some(v) ==> v < group_weight(count + parts.len()),
    decreases parts.len(),
{
    if parts.len() > 0 {
        lemma_fold_groups_bound(init, count, parts.drop_last());
        if fold_groups(init, parts) is Some {
            lemma_hex_value_bound(parts.last());
            assert(count + parts.len() - 1 == count + parts.drop_last().len());
        }
    }
}

/// Up to four hexadecimal digits write a number below 65536.
pub proof fn lemma_hex_value_bound(s: Seq<char>)
    requires
        s.len() <= 4,
        all_hex_digits(s),
    ensures
        hex_value(s) < 65536,
{
    reveal_with_fuel(hex_value, 5);
    if s.len() >= 1 {
        assert(is_hex_digit(s[s.len() - 1]));
        let s1 = s.drop_last();
        if s1.len() >= 1 {
            assert(is_hex_digit(s[s.len() - 2]));
            let s2 = s1.drop_last();
            if s2.len() >= 1 {
                assert(is_hex_digit(s[s.len() - 3]));
                let s3 = s2.drop_last();
                if s3.len() >= 1 {
                    assert(is_hex_digit(s[s.len() - 4]));
                }
            }
        }
    }
}

/// Eight groups fill an address exactly: `65536^8` is `2^128`.
pub proof fn lemma_group_weight_values()
    ensures
        group_weight(0) == 1,
        group_weight(1) == 0x1_0000,
        group_weight(2) == 0x1_0000_0000,
        group_weight(3) == 0x1_0000_0000_0000,
        group_weight(4) == 0x1_0000_0000_0000_0000,
        group_weight(5) == 0x1_0000_0000_0000_0000_0000,
        group_weight(6) == 0x1_0000_0000_0000_0000_0000_0000,
        group_weight(7) == 0x1_0000_0000_0000_0000_0000_0000_0000,
        group_weight(8) == 0x1_0000_0000_0000_0000_0000_0000_0000_0000,
{
    reveal_with_fuel(group_weight, 10);
}

/// Reads one group of an IPv6 address.
pub fn parse_hex_group(s: &Vec<char>) -> (r: Option<u16>)
    ensures
        r == match hex_group(s@) {
            Some(v) => Some(v as u16),
            None => None::<u16>,
        },
        hex_group(s@) matches Some(v) ==> v < 65536,
{
    if s.len() < 1 || s.len() > 4 {
        return None;
    }
    let mut value: u32 = 0;
    let mut i: usize = 0;
    while i < s.len()
        invariant
            i <= s.len() <= 4,
            all_hex_digits(s@.take(i as int)),
            value == hex_value(s@.take(i as int)),
            value < 65536,
        decreases s.len() - i,
    {
        let c: char = s[i];
        let ghost seen = s@.take(i as int);
        let ghost more = s@.take(i + 1);
        proof {
            assert(more.drop_last() =~= seen);
            assert(more.last() == c);
        }
        let digit: u32 = if c >= '0' && c <= '9' {
            c as u32 - '0' as u32
        } else if c >= 'a' && c <= 'f' {
            c as u32 - 'a' as u32 + 10
        } else if c >= 'A' && c <= 'F' {
            c as u32 - 'A' as u32 + 10
        } else {
            proof {
                assert(s@[i as int] == c);
                assert(!all_hex_digits(s@));
            }
            return None;
        };
        proof {
            assert forall|k: int| 0 <= k < more.len() implies is_hex_digit(#[trigger] more[k]) by {
                if k < seen.len() {
                    assert(more[k] == seen[k]);
                }
            }
            lemma_hex_value_bound(more);
        }
        value = value * 16 + digit;
        i += 1;
    }
    proof {
        assert(s@.take(i as int) =~= s@);
    }
    Some(value as u16)
}

/// Appends the groups written by the first `upto` of `parts` to `init`, which
/// holds `count` groups.
fn append_groups(init: u128, count: usize, parts: &Vec<Vec<char>>, upto: usize) -> (r: Option<u128>)
    requires
        init < group_weight(count as nat),
        upto <= parts.len(),
        count + upto <= 8,
    ensures
        r == match fold_groups(init as nat, field_views(parts@).take(upto as int)) {
            Some(v) => Some(v as u128),
            None => None::<u128>,
        },
        fold_groups(init as nat, field_views(parts@).take(upto as int)) matches Some(v) ==> v
            < group_weight((count + upto) as nat) && v <= u128::MAX,
{
    let ghost texts = field_views(parts@).take(upto as int);
    let mut value: u128 = init;
    let mut i: usize = 0;
    proof {
        lemma_group_weight_values();
        assert(texts.take(0) =~= Seq::<Seq<char>>::empty());
    }
    while i < upto
        invariant
            i <= upto <= parts.len(),
            count + upto <= 8,
            texts == field_views(parts@).take(upto as int),
            init < group_weight(count as nat),
            fold_groups(init as nat, texts.take(i as int)) == Some(value as nat),
            value < group_weight((count + i) as nat),
        decreases upto - i,
    {
        proof {
            assert(texts.take(i + 1).drop_last() =~= texts.take(i as int));
            assert(texts.take(i + 1).last() == parts@[i as int]@);
            lemma_group_weight_values();
            lemma_fold_groups_bound(init as nat, count as nat, texts.take(i + 1));
        }
        match parse_hex_group(&parts[i]) {
            Some(group) => {
                value = value * 65536 + group as u128;
            },
            None => {
                proof {
                    lemma_fold_groups_none(init as nat, texts, i + 1);
                }
                return None;
            },
        }
        i += 1;
    }
    proof {
        assert(texts.take(i as int) =~= texts);
    }
    Some(value)
}

/// The number of groups that `parts` write.
fn count_groups(parts: &Vec<Vec<char>>) -> (r: usize)
    requires
        parts.len() <= 8,
    ensures
        r == group_count(field_views(parts@)),
{
    let n: usize = parts.len();
    if n > 0 {
        proof {
            assert(field_views(parts@).last() == parts@[n - 1]@);
        }
        if parse_ipv4(&parts[n - 1]).is_some() {
            return n + 1;
        }
    }
    n
}

/// Appends what `parts` write to `init`, which holds `count` groups.
fn append_parts(init: u128, count: usize, parts: &Vec<Vec<char>>) -> (r: Option<u128>)
    requires
        init < group_weight(count as nat),
        parts.len() <= 8,
        count + group_count(field_views(parts@)) <= 8,
    ensures
        r == match fold_parts(init as nat, field_views(parts@)) {
            Some(v) => Some(v as u128),
            None => None::<u128>,
        },
        fold_parts(init as nat, field_views(parts@)) matches Some(v) ==> v <= u128::MAX,
{
    let n: usize = parts.len();
    let ghost texts = field_views(parts@);
    proof {
        lemma_group_weight_values();
        assert(texts.take(n as int) =~= texts);
    }
    if n > 0 {
        proof {
            assert(texts.last() == parts@[n - 1]@);
            assert(texts.take(n - 1) =~= texts.drop_last());
        }
        if let Some(low) = parse_ipv4(&parts[n - 1]) {
            return match append_groups(init, count, parts, n - 1) {
                Some(high) => {
                    proof {
                        lemma_group_weight_grows((count + n - 1) as nat, 6);
                    }
                    Some(high * 0x1_0000_0000 + low as u128)
                },
                None => None,
            };
        }
    }
    append_groups(init, count, parts, n)
}

/// The weight of a group grows with the number of groups after it.
pub proof fn lemma_group_weight_grows(fewer: nat, more: nat)
    requires
        fewer <= more,
    ensures
        group_weight(fewer) <= group_weight(more),
    decreases more,
{
    if fewer < more {
        lemma_group_weight_grows(fewer, (more - 1) as nat);
    }
}

/// Once a beginning of `parts` holds a part that is no group, no longer
/// beginning writes a number.
pub proof fn lemma_fold_groups_none(init: nat, parts: Seq<Seq<char>>, n: int)
    requires
        0 <= n <= parts.len(),
        fold_groups(init, parts.take(n)) is None,
    ensures
        fold_groups(init, parts) is None,
    decreases parts.len() - n,
{
    if n < parts.len() {
        assert(parts.take(n + 1).drop_last() =~= parts.take(n));
        lemma_fold_groups_none(init, parts, n + 1);
    } else {
        assert(parts.take(n) =~= parts);
    }
}

/// The groups of `s` between colons; none at all for an empty text.
fn split_groups(s: &Vec<char>) -> (r: Vec<Vec<char>>)
    ensures
        field_views(r@) == group_list(s@),
{
    if s.len() == 0 {
        let none: Vec<Vec<char>> = Vec::new();
        assert(field_views(none@) =~= Seq::<Seq<char>>::empty());
        none
    } else {
        split_chars(s, ':')
    }
}

/// The place of the first double colon of `s`, if there is one.
fn find_double_colon(s: &Vec<char>) -> (r: Option<usize>)
    ensures
        match r {
            Some(i) => first_double_colon(s@, i as int),
            None => no_double_colon(s@),
        },
{
    if s.len() < 2 {
        return None;
    }
    let mut i: usize = 0;
    while i < s.len() - 1
        invariant
            i <= s.len() - 1,
            forall|j: int| 0 <= j < i ==> !double_colon_at(s@, j),
        decreases s.len() - i,
    {
        if s[i] == ':' && s[i + 1] == ':' {
            return Some(i);
        }
        i += 1;
    }
    None
}

/// Reads an IPv6 address written as groups of hexadecimal digits, the last
/// two of which may be written as a dotted IPv4 address.
pub fn parse_ipv6(s: &Vec<char>) -> (r: Option<u128>)
    ensures
        r == match ipv6_text(s@) {
            Some(v) => Some(v as u128),
            None => None::<u128>,
        },
        ipv6_text(s@) matches Some(v) ==> v <= u128::MAX,
{
    proof {
        lemma_group_weight_values();
    }
    match find_double_colon(s) {
        None => {
            let parts = split_chars(s, ':');
            if parts.len() > 8 {
                return None;
            }
            if count_groups(&parts) != 8 {
                return None;
            }
            append_parts(0, 0, &parts)
        },
        Some(i) => {
            proof {
                let chosen = choose|k: int| first_double_colon(s@, k);
                assert(first_double_colon(s@, i as int));
                if chosen < i {
                    assert(!double_colon_at(s@, chosen));
                }
                if i < chosen {
                    assert(!double_colon_at(s@, i as int));
                }
            }
            assert(double_colon_at(s@, i as int));
            let end: usize = s.len();
            let head_text = copy_range(s, 0, i);
            let tail_text = copy_range(s, i + 2, end);
            let head = split_groups(&head_text);
            let tail = split_groups(&tail_text);
            if head.len() > 7 || tail.len() > 7 - head.len() {
                return None;
            }
            let tail_groups: usize = count_groups(&tail);
            if tail_groups > 7 - head.len() {
                return None;
            }
            proof {
                assert(field_views(head@).take(head.len() as int) =~= field_views(head@));
            }
            match append_groups(0, 0, &head, head.len()) {
                None => None,
                Some(high) => {
                    let gap: usize = 8 - head.len() - tail_groups;
                    let mut shifted: u128 = high;
                    let mut k: usize = 0;
                    while k < gap
                        invariant
                            k <= gap,
                            gap + head.len() + tail_groups == 8,
                            shifted == high * group_weight(k as nat),
                            high < group_weight(head.len() as nat),
                            shifted < group_weight((head.len() + k) as nat),
                        decreases gap - k,
                    {
                        proof {
                            lemma_group_weight_values();
                            assert(high * (65536 * group_weight(k as nat)) == (high * group_weight(
                                k as nat,
                            )) * 65536) by (nonlinear_arith);
                        }
                        shifted = shifted * 65536;
                        k += 1;
                    }
                    append_parts(shifted, head.len() + gap, &tail)
                },
            }
        },
    }
}

} // verus!

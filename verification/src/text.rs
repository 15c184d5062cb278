//! Reading text: characters of a string, fields split at a separator, and
//! numbers written in decimal or hexadecimal digits.

use vstd::prelude::*;
use vstd::string::StringExecFns;

verus! {

/// `String::push` of std appends one character to the end of the string.
pub assume_specification[ String::push ](s: &mut String, ch: char)
    ensures
        final(s)@ == old(s)@.push(ch),
;

/// A string of the characters of `chars`, in order.
pub fn to_text(chars: &Vec<char>) -> (r: String)
    ensures
        r@ == chars@,
{
    let mut out = String::new();
    let mut i: usize = 0;
    while i < chars.len()
        invariant
            i <= chars.len(),
            out@ == chars@.take(i as int),
        decreases chars.len() - i,
    {
        out.push(chars[i]);
        assert(chars@.take(i + 1) =~= chars@.take(i as int).push(chars@[i as int]));
        i += 1;
    }
    assert(chars@.take(i as int) =~= chars@);
    out
}

/// The decimal digits of `n`, highest first, without leading zeros; `0` for zero.
pub open spec fn decimal_digits(n: nat) -> Seq<char>
    decreases n,
{
    if n < 10 {
        seq![(('0' as nat + n) as u8) as char]
    } else {
        decimal_digits(n / 10).push((('0' as nat + n % 10) as u8) as char)
    }
}

/// The decimal digits of a number are digits, begin with no zero unless the
/// number is below ten, and write the number.
pub proof fn lemma_decimal_digits(n: nat)
    ensures
        decimal_digits(n).len() >= 1,
        all_digits(decimal_digits(n)),
        digits_value(decimal_digits(n)) == n,
        n >= 10 ==> decimal_digits(n)[0] != '0' && decimal_digits(n).len() >= 2,
        n < 10 ==> decimal_digits(n).len() == 1,
        n < 100 ==> decimal_digits(n).len() <= 2,
        n < 1000 ==> decimal_digits(n).len() <= 3,
    decreases n,
{
    let digits = decimal_digits(n);
    if n < 10 {
        assert(digits.drop_last() =~= Seq::<char>::empty());
        assert(digits_value(digits.drop_last()) == 0);
    } else {
        lemma_decimal_digits(n / 10);
        let high = decimal_digits(n / 10);
        assert(digits.drop_last() =~= high);
        assert(digits[0] == high[0]);
        assert forall|i: int| 0 <= i < digits.len() implies is_digit(#[trigger] digits[i]) by {
            if i < high.len() {
                assert(digits[i] == high[i]);
            }
        }
        if n / 10 < 10 {
            assert(high[0] != '0');
        }
    }
}

/// A number written in decimal digits is read back as that number.
pub proof fn lemma_decimal_is_read_back(n: nat)
    ensures
        decimal(decimal_digits(n)) == Some(n),
{
    lemma_decimal_digits(n);
    assert(is_digit(decimal_digits(n)[0]));
}

/// The number `n` written in decimal digits.
pub fn decimal_text(n: u128) -> (r: String)
    ensures
        r@ == decimal_digits(n as nat),
{
    // Digits come lowest first; they are written out in reverse.
    let mut low_first: Vec<char> = Vec::new();
    let mut rest: u128 = n;
    while rest >= 10
        invariant
            decimal_digits(n as nat) == decimal_digits(rest as nat) + low_first@.reverse(),
        decreases rest,
    {
        let digit: u8 = (rest % 10) as u8;
        let c: char = (48u8 + digit) as char;
        let ghost before = low_first@;
        low_first.push(c);
        proof {
            assert(low_first@.reverse() =~= seq![c] + before.reverse());
            assert(decimal_digits(rest as nat) == decimal_digits((rest / 10) as nat).push(c));
            assert(decimal_digits((rest / 10) as nat).push(c) + before.reverse()
                =~= decimal_digits((rest / 10) as nat) + (seq![c] + before.reverse()));
        }
        rest = rest / 10;
    }
    let top: char = (48u8 + rest as u8) as char;
    let mut out = String::new();
    out.push(top);
    let mut i: usize = low_first.len();
    while i > 0
        invariant
            i <= low_first.len(),
            out@ == seq![top] + low_first@.reverse().take(low_first.len() - i),
        decreases i,
    {
        i -= 1;
        out.push(low_first[i]);
        proof {
            let rev = low_first@.reverse();
            let k = low_first.len() - i - 1;
            assert(rev[k] == low_first@[i as int]);
            assert(rev.take(k + 1) =~= rev.take(k).push(rev[k]));
            assert(seq![top] + rev.take(k).push(rev[k]) =~= (seq![top] + rev.take(k)).push(rev[k]));
        }
    }
    proof {
        let rev = low_first@.reverse();
        assert(rev.take(low_first.len() as int) =~= rev);
        assert(decimal_digits(rest as nat) == seq![top]);
    }
    out
}

/// The characters of `s`, in order.
pub fn to_chars(s: &str) -> (r: Vec<char>)
    ensures
        r@ == s@,
{
    let mut chars: Vec<char> = Vec::new();
    for c in it: s.chars()
        invariant
            chars@ == it.seq().take(it.index()),
            it.seq() == s@,
    {
        chars.push(c);
        assert(it.seq().take(it.index() + 1) =~= it.seq().take(it.index()).push(c));
    }
    assert(chars@ =~= s@);
    chars
}

/// The fields of `s` between occurrences of `sep`, read from the left: a
/// separator begins a new, empty field and any other character extends the
/// field that is open. A text without separators is one field, an empty text
/// one empty field.
pub open spec fn split(s: Seq<char>, sep: char) -> Seq<Seq<char>>
    decreases s.len(),
{
    if s.len() == 0 {
        seq![Seq::<char>::empty()]
    } else {
        let before = split(s.drop_last(), sep);
        if s.last() == sep {
            before.push(Seq::<char>::empty())
        } else {
            before.drop_last().push(before.last().push(s.last()))
        }
    }
}

/// The fields of `fields` joined again, with `sep` between neighbours.
pub open spec fn join(fields: Seq<Seq<char>>, sep: char) -> Seq<char>
    decreases fields.len(),
{
    if fields.len() == 0 {
        Seq::<char>::empty()
    } else if fields.len() == 1 {
        fields[0]
    } else {
        join(fields.drop_last(), sep).push(sep) + fields.last()
    }
}

/// Splitting yields at least one field, no field holds the separator, and
/// joining the fields gives the text back.
pub proof fn lemma_split_join(s: Seq<char>, sep: char)
    ensures
        split(s, sep).len() >= 1,
        forall|i: int, j: int|
            0 <= i < split(s, sep).len() && 0 <= j < split(s, sep)[i].len() ==> split(s, sep)[i][j]
                != sep,
        join(split(s, sep), sep) == s,
    decreases s.len(),
{
    if s.len() > 0 {
        let before = split(s.drop_last(), sep);
        lemma_split_join(s.drop_last(), sep);
        let all = split(s, sep);
        if s.last() == sep {
            assert(all.drop_last() == before);
            assert(join(all, sep) =~= join(before, sep).push(sep) + Seq::<char>::empty());
            assert(s =~= s.drop_last().push(sep));
        } else {
            let open = before.last().push(s.last());
            assert(all.last() == open);
            assert(all.drop_last() == before.drop_last());
            if before.len() == 1 {
                assert(join(before, sep) == before[0]);
                assert(join(all, sep) == open);
            } else {
                assert(join(before, sep) == join(before.drop_last(), sep).push(sep) + before.last());
                assert(join(all, sep) =~= (join(before.drop_last(), sep).push(sep)
                    + before.last()).push(s.last()));
            }
            assert(s =~= s.drop_last().push(s.last()));
        }
    }
}

/// The texts of a sequence of strings.
pub open spec fn texts(strings: Seq<String>) -> Seq<Seq<char>> {
    strings.map_values(|s: String| s@)
}

/// Joins `parts` with `sep` between neighbours.
pub fn join_texts(parts: &Vec<String>, sep: char) -> (r: String)
    ensures
        r@ == join(texts(parts@), sep),
{
    let mut out = String::new();
    let ghost all = texts(parts@);
    let mut i: usize = 0;
    proof {
        assert(all.take(0) =~= Seq::<Seq<char>>::empty());
    }
    while i < parts.len()
        invariant
            i <= parts.len(),
            all == texts(parts@),
            out@ == join(all.take(i as int), sep),
        decreases parts.len() - i,
    {
        proof {
            assert(all.take(i + 1).drop_last() =~= all.take(i as int));
            assert(all.take(i + 1).last() == parts@[i as int]@);
            if i == 0 {
                assert(all.take(1)[0] == parts@[0]@);
                assert(Seq::<char>::empty() + parts@[0]@ =~= parts@[0]@);
            }
        }
        if i > 0 {
            out.push(sep);
        }
        out.append(parts[i].as_str());
        i += 1;
    }
    proof {
        assert(all.take(i as int) =~= all);
    }
    out
}

/// Characters other than the separator extend the last field.
pub proof fn lemma_split_extend(s: Seq<char>, more: Seq<char>, sep: char)
    requires
        forall|i: int| 0 <= i < more.len() ==> more[i] != sep,
    ensures
        split(s + more, sep) == split(s, sep).drop_last().push(split(s, sep).last() + more),
    decreases more.len(),
{
    lemma_split_join(s, sep);
    let fields = split(s, sep);
    if more.len() == 0 {
        assert(s + more =~= s);
        assert(fields.last() + more =~= fields.last());
        assert(fields.drop_last().push(fields.last()) =~= fields);
    } else {
        let shorter = more.drop_last();
        lemma_split_extend(s, shorter, sep);
        assert((s + more).drop_last() =~= s + shorter);
        assert((s + more).last() == more.last());
        let before = split(s + shorter, sep);
        assert(before.last() == fields.last() + shorter);
        assert(before.drop_last() =~= fields.drop_last());
        assert((fields.last() + shorter).push(more.last()) =~= fields.last() + more);
    }
}

/// A separator closes the last field and opens an empty one.
pub proof fn lemma_split_separator(s: Seq<char>, sep: char)
    ensures
        split(s.push(sep), sep) == split(s, sep).push(Seq::<char>::empty()),
{
    assert(s.push(sep).drop_last() =~= s);
}

/// The texts held by a vector of fields.
pub open spec fn field_views(fields: Seq<Vec<char>>) -> Seq<Seq<char>> {
    fields.map_values(|f: Vec<char>| f@)
}

/// Splits `line` at every `sep`.
pub fn split_chars(line: &Vec<char>, sep: char) -> (fields: Vec<Vec<char>>)
    ensures
        field_views(fields@) == split(line@, sep),
        fields@.len() >= 1,
{
    let mut fields: Vec<Vec<char>> = Vec::new();
    let mut open: Vec<char> = Vec::new();
    let mut i: usize = 0;
    while i < line.len()
        invariant
            i <= line.len(),
            field_views(fields@).push(open@) == split(line@.take(i as int), sep),
        decreases line.len() - i,
    {
        let c: char = line[i];
        let ghost before = field_views(fields@).push(open@);
        proof {
            assert(line@.take(i + 1).drop_last() =~= line@.take(i as int));
            assert(line@.take(i + 1).last() == c);
            assert(before.drop_last() =~= field_views(fields@));
        }
        if c == sep {
            fields.push(open);
            open = Vec::new();
            assert(field_views(fields@).push(open@) =~= before.push(Seq::<char>::empty()));
        } else {
            open.push(c);
            assert(field_views(fields@).push(open@) =~= before.drop_last().push(
                before.last().push(c),
            ));
        }
        i += 1;
    }
    proof {
        assert(line@.take(i as int) =~= line@);
    }
    let ghost last = open@;
    let ghost head = field_views(fields@);
    fields.push(open);
    assert(field_views(fields@) =~= head.push(last));
    fields
}

/// Where the fields of `line` begin and end: for each field of
/// `split(line, sep)`, in order, the index of its first character and the
/// index after its last.
pub fn field_bounds(line: &Vec<char>, sep: char) -> (bounds: Vec<(usize, usize)>)
    ensures
        bounds@.len() == split(line@, sep).len(),
        bounds@.len() >= 1,
        forall|k: int|
            0 <= k < bounds@.len() ==> (#[trigger] bounds@[k]).0 <= bounds@[k].1 <= line@.len()
                && line@.subrange(bounds@[k].0 as int, bounds@[k].1 as int) == split(line@, sep)[k],
{
    let mut bounds: Vec<(usize, usize)> = Vec::new();
    let mut start: usize = 0;
    let mut i: usize = 0;
    proof {
        assert(line@.subrange(0, 0) =~= Seq::<char>::empty());
        assert(line@.take(0) =~= Seq::<char>::empty());
    }
    while i < line.len()
        invariant
            start <= i <= line.len(),
            bounds@.len() + 1 == split(line@.take(i as int), sep).len(),
            line@.subrange(start as int, i as int) == split(line@.take(i as int), sep).last(),
            forall|k: int|
                0 <= k < bounds@.len() ==> (#[trigger] bounds@[k]).0 <= bounds@[k].1 <= line@.len()
                    && line@.subrange(bounds@[k].0 as int, bounds@[k].1 as int) == split(
                    line@.take(i as int),
                    sep,
                )[k],
        decreases line.len() - i,
    {
        let c: char = line[i];
        let ghost before = split(line@.take(i as int), sep);
        proof {
            assert(line@.take(i + 1).drop_last() =~= line@.take(i as int));
            assert(line@.take(i + 1).last() == c);
        }
        if c == sep {
            bounds.push((start, i));
            start = i + 1;
            proof {
                assert(line@.subrange(start as int, start as int) =~= Seq::<char>::empty());
                assert(split(line@.take(i + 1), sep) == before.push(Seq::<char>::empty()));
            }
        } else {
            proof {
                assert(line@.subrange(start as int, i + 1) =~= line@.subrange(
                    start as int,
                    i as int,
                ).push(c));
                assert(split(line@.take(i + 1), sep) == before.drop_last().push(
                    before.last().push(c),
                ));
            }
        }
        i += 1;
    }
    proof {
        assert(line@.take(i as int) =~= line@);
    }
    bounds.push((start, i));
    bounds
}

/// Whether two texts hold the same characters.
pub fn chars_equal(a: &Vec<char>, b: &Vec<char>) -> (r: bool)
    ensures
        r == (a@ == b@),
{
    if a.len() != b.len() {
        return false;
    }
    let mut i: usize = 0;
    while i < a.len()
        invariant
            i <= a.len(),
            a.len() == b.len(),
            a@.take(i as int) == b@.take(i as int),
        decreases a.len() - i,
    {
        if a[i] != b[i] {
            return false;
        }
        assert(a@.take(i + 1) =~= a@.take(i as int).push(a@[i as int]));
        assert(b@.take(i + 1) =~= b@.take(i as int).push(b@[i as int]));
        i += 1;
    }
    assert(a@.take(i as int) =~= a@);
    assert(b@.take(i as int) =~= b@);
    true
}

/// Whether two strings hold the same characters.
pub fn same_text(a: &str, b: &str) -> (r: bool)
    ensures
        r == (a@ == b@),
{
    let left = to_chars(a);
    let right = to_chars(b);
    chars_equal(&left, &right)
}

/// Whether `chars` holds exactly the characters of `word`.
pub fn text_is(chars: &Vec<char>, word: &str) -> (r: bool)
    ensures
        r == (chars@ == word@),
{
    let right = to_chars(word);
    chars_equal(chars, &right)
}

/// The characters of `s` from `from` up to `to`.
pub fn copy_range(s: &Vec<char>, from: usize, to: usize) -> (r: Vec<char>)
    requires
        from <= to <= s.len(),
    ensures
        r@ == s@.subrange(from as int, to as int),
{
    let mut out: Vec<char> = Vec::new();
    let mut i: usize = from;
    while i < to
        invariant
            from <= i <= to <= s.len(),
            out@ == s@.subrange(from as int, i as int),
        decreases to - i,
    {
        out.push(s[i]);
        assert(out@ =~= s@.subrange(from as int, i + 1));
        i += 1;
    }
    out
}

/// Whether `s` begins with `word`.
pub open spec fn begins_with(s: Seq<char>, word: Seq<char>) -> bool {
    word.len() <= s.len() && s.subrange(0, word.len() as int) == word
}

/// Whether `s` ends with `word`.
pub open spec fn ends_with(s: Seq<char>, word: Seq<char>) -> bool {
    word.len() <= s.len() && s.subrange(s.len() - word.len(), s.len() as int) == word
}

/// Whether the characters of `s` from `from` on begin with `word`.
fn matches_at(s: &Vec<char>, from: usize, word: &Vec<char>) -> (r: bool)
    requires
        from <= s.len(),
    ensures
        r == (from + word.len() <= s.len() && s@.subrange(from as int, from + word.len())
            == word@),
{
    if word.len() > s.len() - from {
        return false;
    }
    let mut i: usize = 0;
    while i < word.len()
        invariant
            i <= word.len(),
            from + word.len() <= s.len(),
            s@.subrange(from as int, from + i) == word@.take(i as int),
        decreases word.len() - i,
    {
        if s[from + i] != word[i] {
            proof {
                assert(s@.subrange(from as int, from + word.len())[i as int] == s@[from + i]);
            }
            return false;
        }
        assert(s@.subrange(from as int, from + i + 1) =~= s@.subrange(from as int, from + i).push(
            s@[from + i],
        ));
        assert(word@.take(i + 1) =~= word@.take(i as int).push(word@[i as int]));
        i += 1;
    }
    assert(word@.take(i as int) =~= word@);
    true
}

/// Whether `s` begins with `word`.
pub fn starts_with_text(s: &Vec<char>, word: &str) -> (r: bool)
    ensures
        r == begins_with(s@, word@),
{
    let w = to_chars(word);
    matches_at(s, 0, &w)
}

/// Whether `s` ends with `word`.
pub fn ends_with_text(s: &Vec<char>, word: &str) -> (r: bool)
    ensures
        r == ends_with(s@, word@),
{
    let w = to_chars(word);
    if w.len() > s.len() {
        return false;
    }
    matches_at(s, s.len() - w.len(), &w)
}

/// Whether `c` is white space: a character with the Unicode property
/// `White_Space`.
pub open spec fn is_white_space(c: char) -> bool {
    let n = c as u32;
    (0x09 <= n <= 0x0d) || n == 0x20 || n == 0x85 || n == 0xa0 || n == 0x1680 || (0x2000 <= n
        <= 0x200a) || n == 0x2028 || n == 0x2029 || n == 0x202f || n == 0x205f || n == 0x3000
}

/// Whether `s` is empty or holds white space only.
pub open spec fn is_blank(s: Seq<char>) -> bool {
    forall|i: int| 0 <= i < s.len() ==> is_white_space(#[trigger] s[i])
}

/// Whether `s` is empty or holds white space only.
pub fn blank(s: &Vec<char>) -> (r: bool)
    ensures
        r == is_blank(s@),
{
    let mut i: usize = 0;
    while i < s.len()
        invariant
            i <= s.len(),
            forall|k: int| 0 <= k < i ==> is_white_space(#[trigger] s@[k]),
        decreases s.len() - i,
    {
        let n: u32 = s[i] as u32;
        let white: bool = (0x09 <= n && n <= 0x0d) || n == 0x20 || n == 0x85 || n == 0xa0 || n
            == 0x1680 || (0x2000 <= n && n <= 0x200a) || n == 0x2028 || n == 0x2029 || n == 0x202f
            || n == 0x205f || n == 0x3000;
        if !white {
            assert(!is_white_space(s@[i as int]));
            return false;
        }
        i += 1;
    }
    true
}

/// Whether `c` is one of the digits `0` to `9`.
pub open spec fn is_digit(c: char) -> bool {
    '0' <= c <= '9'
}

/// Whether every character of `s` is a decimal digit.
pub open spec fn all_digits(s: Seq<char>) -> bool {
    forall|i: int| 0 <= i < s.len() ==> is_digit(#[trigger] s[i])
}

/// The number that the decimal digits of `s` write.
pub open spec fn digits_value(s: Seq<char>) -> nat
    decreases s.len(),
{
    if s.len() == 0 {
        0
    } else {
        (digits_value(s.drop_last()) * 10 + (s.last() as nat - '0' as nat)) as nat
    }
}

/// The number that `s` writes in decimal: an optional `+`, then one or more
/// digits and nothing else. `None` for any other text.
pub open spec fn decimal(s: Seq<char>) -> Option<nat> {
    let digits = if s.len() > 0 && s[0] == '+' {
        s.skip(1)
    } else {
        s
    };
    if digits.len() > 0 && all_digits(digits) {
        Some(digits_value(digits))
    } else {
        None
    }
}

/// The value of a run of digits is at least the value of any of its beginnings.
pub proof fn lemma_digits_value_grows(s: Seq<char>, n: int)
    requires
        all_digits(s),
        0 <= n <= s.len(),
    ensures
        digits_value(s.take(n)) <= digits_value(s),
    decreases s.len() - n,
{
    if n < s.len() {
        assert(s.take(n + 1).drop_last() =~= s.take(n));
        assert(is_digit(s[n]));
        assert(s.take(n + 1).last() == s[n]);
        lemma_digits_value_grows(s, n + 1);
    } else {
        assert(s.take(n) =~= s);
    }
}

/// Reads the decimal number that `s` writes, if it is at most `max`.
pub fn parse_decimal(s: &Vec<char>, max: u64) -> (r: Option<u64>)
    ensures
        r == match decimal(s@) {
            Some(v) => if v <= max {
                Some(v as u64)
            } else {
                None
            },
            None => None,
        },
{
    let start: usize = if s.len() > 0 && s[0] == '+' {
        1
    } else {
        0
    };
    if s.len() == start {
        return None;
    }
    let ghost digits = s@.skip(start as int);
    proof {
        assert(s@.skip(0) =~= s@);
    }
    let mut value: u64 = 0;
    let mut i: usize = start;
    while i < s.len()
        invariant
            start <= i <= s.len(),
            digits == s@.skip(start as int),
            decimal(s@) == if all_digits(digits) {
                Some(digits_value(digits))
            } else {
                None
            },
            all_digits(digits.take(i - start)),
            value == digits_value(digits.take(i - start)),
            value <= max,
        decreases s.len() - i,
    {
        let c: char = s[i];
        let ghost seen = digits.take(i - start);
        let ghost more = digits.take(i - start + 1);
        proof {
            assert(more.drop_last() =~= seen);
            assert(more.last() == c);
        }
        if !(c >= '0' && c <= '9') {
            proof {
                assert(digits[i - start] == c);
                assert(!all_digits(digits));
            }
            return None;
        }
        let digit: u128 = (c as u32 - '0' as u32) as u128;
        // The sum is taken in 128 bits, where it cannot pass the top.
        let next: u128 = value as u128 * 10 + digit;
        proof {
            assert(next == digits_value(more));
            assert forall|k: int| 0 <= k < more.len() implies is_digit(#[trigger] more[k]) by {
                if k < seen.len() {
                    assert(more[k] == seen[k]);
                }
            }
        }
        if next > max as u128 {
            proof {
                if all_digits(digits) {
                    lemma_digits_value_grows(digits, i - start + 1);
                }
            }
            return None;
        }
        value = next as u64;
        i += 1;
    }
    proof {
        assert(digits.take(i - start) =~= digits);
    }
    Some(value)
}

} // verus!

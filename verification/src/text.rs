//! Text as sequences of characters: decimal numbers, hexadecimal digits,
//! white space, prefixes and searching.

use vstd::prelude::*;
use vstd::slice::slice_subrange;

verus! {

/// `String::push` appends one character.
pub assume_specification[ String::push ](s: &mut String, c: char)
    ensures
        final(s)@ == old(s)@.push(c),
;

/// The characters of a string.
pub fn chars_of(s: &str) -> (r: Vec<char>)
    ensures
        r@ == s@,
{
    let mut out: Vec<char> = Vec::new();
    for c in it: s.chars()
        invariant
            out@ == it.seq().take(it.index()),
    {
        out.push(c);
    }
    assert(out@ == s@);
    out
}

/// Appends a run of characters.
pub fn push_chars(out: &mut String, chars: &[char])
    ensures
        final(out)@ == old(out)@ + chars@,
{
    let ghost start = out@;
    let mut i: usize = 0;
    while i < chars.len()
        invariant
            i <= chars@.len(),
            out@ == start + chars@.take(i as int),
        decreases chars@.len() - i,
    {
        out.push(chars[i]);
        assert(chars@.take(i + 1) == chars@.take(i as int).push(chars@[i as int]));
        i += 1;
    }
    assert(chars@.take(i as int) == chars@);
}

/// The string of a run of characters.
pub fn string_of(chars: &[char]) -> (r: String)
    ensures
        r@ == chars@,
{
    let mut out = String::new();
    push_chars(&mut out, chars);
    out
}

// ── Prefixes and searching ──────────────────────────────────────────

/// Whether `s` starts with `prefix`.
pub fn starts_with(s: &[char], prefix: &str) -> (r: bool)
    ensures
        r == prefix@.is_prefix_of(s@),
{
    let p = chars_of(prefix);
    if s.len() < p.len() {
        return false;
    }
    let mut i: usize = 0;
    while i < p.len()
        invariant
            i <= p@.len() <= s@.len(),
            p@ == prefix@,
            forall|k: int| 0 <= k < i ==> p@[k] == s@[k],
        decreases p@.len() - i,
    {
        if s[i] != p[i] {
            assert(prefix@[i as int] != s@.subrange(0, prefix@.len() as int)[i as int]);
            return false;
        }
        i += 1;
    }
    assert(prefix@ == s@.subrange(0, prefix@.len() as int));
    true
}

/// Compares two strings.
pub fn str_equal(a: &str, b: &str) -> (r: bool)
    ensures
        r == (a@ == b@),
{
    let x = chars_of(a);
    let y = chars_of(b);
    if x.len() != y.len() {
        return false;
    }
    let mut i: usize = 0;
    while i < x.len()
        invariant
            i <= x@.len() == y@.len(),
            x@ == a@,
            y@ == b@,
            forall|k: int| 0 <= k < i ==> x@[k] == y@[k],
        decreases x@.len() - i,
    {
        if x[i] != y[i] {
            return false;
        }
        i += 1;
    }
    assert(a@ == b@);
    true
}

/// `c` stands at `i` in `s`, and nowhere before.
pub open spec fn first_at(s: Seq<char>, c: char, i: int) -> bool {
    &&& 0 <= i < s.len()
    &&& s[i] == c
    &&& forall|j: int| 0 <= j < i ==> s[j] != c
}

/// Where `c` first stands in `s`, if it does.
pub open spec fn first_index(s: Seq<char>, c: char) -> Option<int> {
    if s.contains(c) {
        Some(choose|i: int| first_at(s, c, i))
    } else {
        None
    }
}

/// The first place of a character is the only place that is first.
pub proof fn lemma_first_index(s: Seq<char>, c: char, i: int)
    requires
        first_at(s, c, i),
    ensures
        first_index(s, c) == Some(i),
{
    assert(s.contains(c));
    let k = choose|k: int| first_at(s, c, k);
    assert(first_at(s, c, k));
    assert(k == i);
}

/// Looks for a character.
pub fn find_char(s: &[char], c: char) -> (r: Option<usize>)
    ensures
        match r {
            Some(i) => first_index(s@, c) == Some(i as int) && first_at(s@, c, i as int),
            None => first_index(s@, c) is None && !s@.contains(c),
        },
{
    let mut i: usize = 0;
    while i < s.len()
        invariant
            i <= s@.len(),
            forall|j: int| 0 <= j < i ==> s@[j] != c,
        decreases s@.len() - i,
    {
        if s[i] == c {
            proof {
                lemma_first_index(s@, c, i as int);
            }
            return Some(i);
        }
        i += 1;
    }
    None
}

// ── White space ─────────────────────────────────────────────────────

/// The characters with the Unicode property `White_Space`.
pub open spec fn is_white_space(c: char) -> bool {
    ||| '\u{9}' <= c <= '\u{d}'
    ||| c == '\u{20}'
    ||| c == '\u{85}'
    ||| c == '\u{a0}'
    ||| c == '\u{1680}'
    ||| '\u{2000}' <= c <= '\u{200a}'
    ||| c == '\u{2028}'
    ||| c == '\u{2029}'
    ||| c == '\u{202f}'
    ||| c == '\u{205f}'
    ||| c == '\u{3000}'
}

/// Whether a character is white space.
pub fn white_space(c: char) -> (r: bool)
    ensures
        r == is_white_space(c),
{
    let u: u32 = c as u32;
    (0x9 <= u && u <= 0xd) || u == 0x20 || u == 0x85 || u == 0xa0 || u == 0x1680 || (0x2000 <= u
        && u <= 0x200a) || u == 0x2028 || u == 0x2029 || u == 0x202f || u == 0x205f || u == 0x3000
}

/// `s` without the white space in front.
pub open spec fn trim_start(s: Seq<char>) -> Seq<char>
    decreases s.len(),
{
    if s.len() > 0 && is_white_space(s[0]) {
        trim_start(s.drop_first())
    } else {
        s
    }
}

/// `s` without the white space behind.
pub open spec fn trim_end(s: Seq<char>) -> Seq<char>
    decreases s.len(),
{
    if s.len() > 0 && is_white_space(s.last()) {
        trim_end(s.drop_last())
    } else {
        s
    }
}

/// `s` without the white space at either end.
pub open spec fn trimmed(s: Seq<char>) -> Seq<char> {
    trim_end(trim_start(s))
}

/// Where the text between the white space at either end starts and stops.
fn trim_range(s: &[char]) -> (r: (usize, usize))
    ensures
        r.0 <= r.1 <= s@.len(),
        s@.subrange(r.0 as int, r.1 as int) == trimmed(s@),
{
    let n: usize = s.len();
    let mut i: usize = 0;
    assert(s@.subrange(0, n as int) == s@);
    while i < n && white_space(s[i])
        invariant
            i <= n == s@.len(),
            trim_start(s@) == trim_start(s@.subrange(i as int, n as int)),
        decreases n - i,
    {
        assert(s@.subrange(i as int, n as int).drop_first() == s@.subrange(i + 1, n as int));
        i += 1;
    }
    let mut j: usize = n;
    while i < j && white_space(s[j - 1])
        invariant
            i <= j <= n == s@.len(),
            trimmed(s@) == trim_end(s@.subrange(i as int, j as int)),
        decreases j - i,
    {
        assert(s@.subrange(i as int, j as int).drop_last() == s@.subrange(i as int, j - 1));
        j -= 1;
    }
    (i, j)
}

/// Drops the white space at either end.
pub fn trim(s: &[char]) -> (r: &[char])
    ensures
        r@ == trimmed(s@),
{
    let (i, j) = trim_range(s);
    slice_subrange(s, i, j)
}

/// Drops the white space at either end.
pub fn trim_str(s: &str) -> (r: &str)
    ensures
        r@ == trimmed(s@),
{
    let chars = chars_of(s);
    let (i, j) = trim_range(&chars);
    s.substring_char(i, j)
}

/// Text that neither starts nor ends with white space is left as it is.
pub proof fn lemma_trimmed_tight(s: Seq<char>)
    requires
        s.len() > 0,
        !is_white_space(s[0]),
        !is_white_space(s.last()),
    ensures
        trimmed(s) == s,
{
}

// ── Decimal numbers ─────────────────────────────────────────────────

/// The character of a decimal digit.
pub open spec fn digit_char(d: nat) -> char {
    ('0' as nat + d) as char
}

/// A number in decimal, without leading zeros.
pub open spec fn decimal(n: nat) -> Seq<char>
    decreases n,
{
    if n < 10 {
        seq![digit_char(n)]
    } else {
        decimal(n / 10).push(digit_char(n % 10))
    }
}

/// Appends a number in decimal.
pub fn push_decimal(out: &mut String, n: u64)
    ensures
        final(out)@ == old(out)@ + decimal(n as nat),
    decreases n,
{
    if n >= 10 {
        push_decimal(out, n / 10);
    }
    let d: u8 = (n % 10) as u8;
    out.push((48u8 + d) as char);
}

/// Whether a character is an ASCII decimal digit.
pub open spec fn is_digit(c: char) -> bool {
    '0' <= c <= '9'
}

/// The number that a run of decimal digits stands for.
pub open spec fn digits_value(s: Seq<char>) -> nat
    decreases s.len(),
{
    if s.len() == 0 {
        0
    } else {
        digits_value(s.drop_last()) * 10 + (s.last() as nat - '0' as nat) as nat
    }
}

/// `s` without the plus sign that it may start with.
pub open spec fn without_plus(s: Seq<char>) -> Seq<char> {
    if s.len() > 0 && s[0] == '+' {
        s.drop_first()
    } else {
        s
    }
}

/// The number written in `s`: an optional plus sign, then decimal digits
/// only, at least one, for a number of at most `max`.
pub open spec fn parse_decimal(s: Seq<char>, max: nat) -> Option<nat> {
    let digits = without_plus(s);
    if digits.len() > 0 && (forall|i: int| 0 <= i < digits.len() ==> is_digit(digits[i]))
        && digits_value(digits) <= max {
        Some(digits_value(digits))
    } else {
        None
    }
}

/// A longer run of digits stands for no smaller a number.
proof fn lemma_digits_value_grows(s: Seq<char>, n: int)
    requires
        0 <= n <= s.len(),
        forall|i: int| 0 <= i < s.len() ==> is_digit(s[i]),
    ensures
        digits_value(s.take(n)) <= digits_value(s),
    decreases s.len() - n,
{
    if n == s.len() {
        assert(s.take(n) == s);
    } else {
        lemma_digits_value_grows(s, n + 1);
        assert(s.take(n + 1).drop_last() == s.take(n));
    }
}

/// Reads a number of at most `max`.
pub fn read_decimal(s: &[char], max: u64) -> (r: Option<u64>)
    ensures
        match r {
            Some(n) => parse_decimal(s@, max as nat) == Some(n as nat),
            None => parse_decimal(s@, max as nat) is None,
        },
{
    let start: usize = if s.len() > 0 && s[0] == '+' {
        1
    } else {
        0
    };
    let digits = slice_subrange(s, start, s.len());
    let ghost d = digits@;
    assert(d == without_plus(s@));
    if digits.len() == 0 {
        return None;
    }
    let mut value: u64 = 0;
    let mut i: usize = 0;
    assert(d.take(0) == Seq::<char>::empty());
    while i < digits.len()
        invariant
            i <= d.len(),
            d == digits@,
            d.len() > 0,
            d == without_plus(s@),
            forall|k: int| 0 <= k < i ==> is_digit(d[k]),
            value == digits_value(d.take(i as int)),
            value <= max,
        decreases d.len() - i,
    {
        let c = digits[i];
        if c < '0' || c > '9' {
            assert(!is_digit(d[i as int]));
            return None;
        }
        let digit: u64 = (c as u32 - 48) as u64;
        assert(d.take(i + 1).drop_last() == d.take(i as int));
        if max < digit || value > (max - digit) / 10 {
            proof {
                assert(digits_value(d.take(i + 1)) > max);
                if forall|k: int| 0 <= k < d.len() ==> is_digit(d[k]) {
                    lemma_digits_value_grows(d, i + 1);
                }
            }
            return None;
        }
        value = value * 10 + digit;
        i += 1;
    }
    assert(d.take(i as int) == d);
    Some(value)
}

/// A number written in decimal reads back as that number.
pub proof fn law_parse_decimal(n: nat, max: nat)
    requires
        n <= max,
    ensures
        parse_decimal(decimal(n), max) == Some(n),
{
    lemma_decimal_digits(n);
}

/// Decimal notation consists of digits and stands for its number.
pub proof fn lemma_decimal_digits(n: nat)
    ensures
        decimal(n).len() > 0,
        forall|i: int| 0 <= i < decimal(n).len() ==> is_digit(#[trigger] decimal(n)[i]),
        digits_value(decimal(n)) == n,
    decreases n,
{
    let s = decimal(n);
    if n < 10 {
        assert(s.drop_last() == Seq::<char>::empty());
        assert(digits_value(s.drop_last()) == 0);
    } else {
        lemma_decimal_digits(n / 10);
        assert(s.drop_last() == decimal(n / 10));
        assert forall|i: int| 0 <= i < s.len() implies is_digit(#[trigger] s[i]) by {
            if i < s.len() - 1 {
                assert(s[i] == decimal(n / 10)[i]);
            }
        }
    }
}

// ── Hexadecimal ─────────────────────────────────────────────────────

/// The lower-case character of a hexadecimal digit.
pub open spec fn hex_char(d: u8) -> char {
    if d < 10 {
        ('0' as u8 + d) as char
    } else {
        ('a' as u8 + (d - 10)) as char
    }
}

/// Bytes as lower-case hexadecimal, two digits each, high digit first.
pub open spec fn hex_chars(bytes: Seq<u8>) -> Seq<char> {
    Seq::new(
        bytes.len() * 2,
        |i: int| hex_char(if i % 2 == 0 { bytes[i / 2] / 16 } else { bytes[i / 2] % 16 }),
    )
}

/// The value of a hexadecimal digit of either case.
pub open spec fn hex_value(c: char) -> Option<u8> {
    if '0' <= c <= '9' {
        Some((c as u8 - '0' as u8) as u8)
    } else if 'a' <= c <= 'f' {
        Some((c as u8 - 'a' as u8 + 10) as u8)
    } else if 'A' <= c <= 'F' {
        Some((c as u8 - 'A' as u8 + 10) as u8)
    } else {
        None
    }
}

/// A hexadecimal digit has the value that it was written for.
pub proof fn lemma_hex_value(d: u8)
    requires
        d < 16,
    ensures
        hex_value(hex_char(d)) == Some(d),
        !is_white_space(hex_char(d)),
        hex_char(d) < '\u{80}',
{
}

/// The character of a hexadecimal digit.
pub fn hex_digit_char(d: u8) -> (r: char)
    requires
        d < 16,
    ensures
        r == hex_char(d),
{
    if d < 10 {
        (48u8 + d) as char
    } else {
        (87u8 + d) as char
    }
}

/// The value of a hexadecimal digit.
pub fn hex_digit(c: char) -> (r: Option<u8>)
    ensures
        r == hex_value(c),
{
    let u: u32 = c as u32;
    if 0x30 <= u && u <= 0x39 {
        Some((u - 0x30) as u8)
    } else if 0x61 <= u && u <= 0x66 {
        Some((u - 0x61 + 10) as u8)
    } else if 0x41 <= u && u <= 0x46 {
        Some((u - 0x41 + 10) as u8)
    } else {
        None
    }
}

/// Appends bytes as lower-case hexadecimal.
pub fn push_hex(out: &mut String, bytes: &[u8])
    ensures
        final(out)@ == old(out)@ + hex_chars(bytes@),
{
    let ghost start = out@;
    let mut i: usize = 0;
    assert(out@ == start + hex_chars(bytes@.take(0)));
    while i < bytes.len()
        invariant
            i <= bytes@.len(),
            out@ == start + hex_chars(bytes@.take(i as int)),
        decreases bytes@.len() - i,
    {
        let b: u8 = bytes[i];
        out.push(hex_digit_char(b / 16));
        out.push(hex_digit_char(b % 16));
        assert(hex_chars(bytes@.take(i + 1)) == hex_chars(bytes@.take(i as int)).push(
            hex_char(b / 16),
        ).push(hex_char(b % 16)));
        i += 1;
    }
    assert(bytes@.take(i as int) == bytes@);
}

/// Encodes bytes as lower-case hexadecimal.
pub fn hex_encode(bytes: &[u8]) -> (r: String)
    ensures
        r@ == hex_chars(bytes@),
{
    let mut out = String::new();
    push_hex(&mut out, bytes);
    out
}

// ── Laws ────────────────────────────────────────────────────────────

/// Decimal notation goes by tens: the digits of a number are those of its tenth
/// and then that of the rest, each digit being as far behind `0` as it counts.
pub proof fn law_decimal_goes_by_tens(n: nat, d: nat, s: Seq<char>, c: char)
    requires
        d < 10,
    ensures
        decimal(d).len() == 1 && decimal(d)[0] as int == 48 + d,
        n > 0 ==> decimal(10 * n + d) == decimal(n).push(decimal(d)[0]),
        digits_value(Seq::empty()) == 0,
        is_digit(c) ==> digits_value(s.push(c)) == 10 * digits_value(s) + (c as int - 48),
        is_digit(c) <==> 48 <= c as int <= 57,
{
    assert(s.push(c).drop_last() == s);
}

/// What reads as a number: digits and nothing else, with or without a plus sign
/// in front, for a number within the limit; and it reads as the number that the
/// digits stand for.
pub proof fn law_what_reads_as_a_number(s: Seq<char>, max: nat, i: int)
    ensures
        parse_decimal(Seq::empty(), max) is None,
        parse_decimal(seq!['+'], max) is None,
        parse_decimal(s, max) matches Some(n) ==> n <= max,
        0 <= i < s.len() && !is_digit(s[i]) && !(i == 0 && s[0] == '+') ==> parse_decimal(s, max)
            is None,
        s.len() > 0 && (forall|k: int| 0 <= k < s.len() ==> is_digit(#[trigger] s[k]))
            && digits_value(s) <= max ==> parse_decimal(s, max) == Some(digits_value(s))
            && parse_decimal(seq!['+'] + s, max) == Some(digits_value(s)),
        s.len() > 0 && (forall|k: int| 0 <= k < s.len() ==> is_digit(#[trigger] s[k]))
            && digits_value(s) > max ==> parse_decimal(s, max) is None,
{
    assert(seq!['+'].drop_first() == Seq::<char>::empty());
    assert((seq!['+'] + s).drop_first() == s);
    if s.len() > 0 && forall|k: int| 0 <= k < s.len() ==> is_digit(#[trigger] s[k]) {
        assert(is_digit(s[0]));
        assert(without_plus(s) == s);
    }
    if 0 <= i < s.len() && !is_digit(s[i]) && !(i == 0 && s[0] == '+') {
        let digits = without_plus(s);
        if s[0] == '+' {
            assert(digits[i - 1] == s[i]);
        } else {
            assert(digits[i] == s[i]);
        }
    }
}

/// Hexadecimal notation: a byte is its high and its low digit, `0` to `9` and
/// `a` to `f`; both cases are read.
pub proof fn law_hexadecimal(bytes: Seq<u8>, i: int, d: u8, c: char)
    requires
        0 <= i < bytes.len(),
        d < 16,
    ensures
        hex_chars(bytes).len() == 2 * bytes.len(),
        hex_chars(bytes)[2 * i] == hex_char(bytes[i] / 16),
        hex_chars(bytes)[2 * i + 1] == hex_char(bytes[i] % 16),
        d < 10 ==> hex_char(d) as int == 48 + d,
        d >= 10 ==> hex_char(d) as int == 87 + d,
        hex_value(hex_char(d)) == Some(d),
        d >= 10 ==> hex_value((55 + d) as char) == Some(d),
        hex_value(c) matches Some(v) ==> v < 16 && (c as int == 48 + v && v < 10 || c as int == 87
            + v && v >= 10 || c as int == 55 + v && v >= 10),
{
    lemma_hex_value(d);
    assert((2 * i) / 2 == i && (2 * i) % 2 == 0);
    assert((2 * i + 1) / 2 == i && (2 * i + 1) % 2 == 1);
}

/// Trimming takes white space off both ends and nothing else: what it takes is
/// all white space, and what it leaves begins and ends with something else.
pub proof fn law_trimming(s: Seq<char>)
    ensures
        exists|before: Seq<char>, after: Seq<char>| #[trigger]
            (before + trimmed(s) + after) == s && all_white(before) && all_white(after),
        trimmed(s).len() > 0 ==> !is_white_space(trimmed(s)[0]) && !is_white_space(
            trimmed(s)[trimmed(s).len() - 1],
        ),
{
    lemma_trim_start(s);
    lemma_trim_end(trim_start(s));
    let before = choose|before: Seq<char>|
        #[trigger] (before + trim_start(s)) == s && all_white(before);
    let after = choose|after: Seq<char>|
        #[trigger] (trimmed(s) + after) == trim_start(s) && all_white(after);
    assert(before + trimmed(s) + after == s);
    if trimmed(s).len() > 0 {
        assert(trim_start(s)[0] == trimmed(s)[0]);
    }
}

/// Only white space.
pub open spec fn all_white(s: Seq<char>) -> bool {
    forall|i: int| 0 <= i < s.len() ==> is_white_space(#[trigger] s[i])
}

/// What is taken off the front.
proof fn lemma_trim_start(s: Seq<char>)
    ensures
        exists|before: Seq<char>| #[trigger] (before + trim_start(s)) == s && all_white(before),
        trim_start(s).len() > 0 ==> !is_white_space(trim_start(s)[0]),
    decreases s.len(),
{
    if s.len() > 0 && is_white_space(s[0]) {
        lemma_trim_start(s.drop_first());
        let rest = choose|rest: Seq<char>|
            #[trigger] (rest + trim_start(s.drop_first())) == s.drop_first() && all_white(rest);
        let before = seq![s[0]] + rest;
        assert(before + trim_start(s) == s) by {
            assert(s == seq![s[0]] + s.drop_first());
        }
        assert forall|i: int| 0 <= i < before.len() implies is_white_space(#[trigger] before[i]) by {
            if i > 0 {
                assert(before[i] == rest[i - 1]);
            }
        }
    } else {
        assert(Seq::<char>::empty() + trim_start(s) == s);
    }
}

/// What is taken off the back.
proof fn lemma_trim_end(s: Seq<char>)
    ensures
        exists|after: Seq<char>| #[trigger] (trim_end(s) + after) == s && all_white(after),
        trim_end(s).len() > 0 ==> !is_white_space(trim_end(s)[trim_end(s).len() - 1]),
    decreases s.len(),
{
    if s.len() > 0 && is_white_space(s.last()) {
        lemma_trim_end(s.drop_last());
        let rest = choose|rest: Seq<char>|
            #[trigger] (trim_end(s.drop_last()) + rest) == s.drop_last() && all_white(rest);
        let after = rest.push(s.last());
        assert(trim_end(s) + after == s) by {
            assert(s == s.drop_last().push(s.last()));
        }
        assert forall|i: int| 0 <= i < after.len() implies is_white_space(#[trigger] after[i]) by {
            if i < rest.len() {
                assert(after[i] == rest[i]);
            }
        }
    } else {
        assert(trim_end(s) + Seq::<char>::empty() == s);
    }
}

/// Blanks, tabs and line ends are white space, visible ASCII characters are not.
pub proof fn law_white_space(c: char)
    ensures
        is_white_space(' ') && is_white_space('\t') && is_white_space('\n') && is_white_space('\r'),
        '!' <= c <= '~' ==> !is_white_space(c),
{
}

/// The first place of a character holds it, and none before does; there is none
/// only where the character does not occur.
pub proof fn law_first_place(s: Seq<char>, c: char, j: int)
    ensures
        match first_index(s, c) {
            Some(i) => 0 <= i < s.len() && s[i] == c && (0 <= j < i ==> s[j] != c),
            None => 0 <= j < s.len() ==> s[j] != c,
        },
{
    if s.contains(c) {
        let k = choose|k: int| 0 <= k < s.len() && s[k] == c;
        lemma_some_first(s, c, k);
    } else if 0 <= j < s.len() {
        assert(s.contains(s[j]));
    }
}

/// A character that occurs has a first place.
proof fn lemma_some_first(s: Seq<char>, c: char, k: int)
    requires
        0 <= k < s.len(),
        s[k] == c,
    ensures
        exists|i: int| first_at(s, c, i),
    decreases k,
{
    if exists|j: int| 0 <= j < k && s[j] == c {
        let j = choose|j: int| 0 <= j < k && s[j] == c;
        lemma_some_first(s, c, j);
    } else {
        assert(first_at(s, c, k));
    }
}

/// Which characters are white space, by their numbers.
pub proof fn law_white_space_numbers(c: char)
    ensures
        is_white_space(c) <==> {
            let n = c as int;
            ||| 9 <= n <= 13
            ||| n == 0x20
            ||| n == 0x85
            ||| n == 0xA0
            ||| n == 0x1680
            ||| 0x2000 <= n <= 0x200A
            ||| n == 0x2028
            ||| n == 0x2029
            ||| n == 0x202F
            ||| n == 0x205F
            ||| n == 0x3000
        },
{
}

} // verus!

//! Text building and reading: decimal and hexadecimal numbers, trimming, lists.
//!
//! Every function here is specified over the sequence of characters a string shows.

use vstd::prelude::*;

verus! {

// == Building strings =========================================================

/// `String::push` appends one character at the end of the string.
pub assume_specification[ String::push ](s: &mut String, c: char)
    ensures
        final(s)@ == old(s)@.push(c),
;

/// The characters of a string, in order.
pub fn chars_of(s: &str) -> (out: Vec<char>)
    ensures
        out@ == s@,
{
    let mut out: Vec<char> = Vec::new();
    for c in it: s.chars()
        invariant
            out@ == it.seq().take(it.index()),
            it.seq() == s@,
    {
        out.push(c);
    }
    out
}

/// The string made of the given characters.
pub fn string_of(chars: &[char]) -> (out: String)
    ensures
        out@ == chars@,
{
    let mut out = String::new();
    let mut i: usize = 0;
    while i < chars.len()
        invariant
            i <= chars.len(),
            out@ == chars@.take(i as int),
        decreases chars.len() - i,
    {
        out.push(chars[i]);
        assert(chars@.take(i + 1) =~= chars@.take(i as int).push(chars@[i as int]));
        i += 1;
    }
    assert(chars@.take(chars.len() as int) =~= chars@);
    out
}

/// Whether two strings show the same characters.
pub fn same_text(a: &str, b: &str) -> (same: bool)
    ensures
        same == (a@ == b@),
{
    a.to_owned() == b.to_owned()
}

/// Appends every character of `tail`.
pub fn push_chars(out: &mut String, tail: &[char])
    ensures
        final(out)@ == old(out)@ + tail@,
{
    let mut i: usize = 0;
    while i < tail.len()
        invariant
            i <= tail.len(),
            out@ == old(out)@ + tail@.take(i as int),
        decreases tail.len() - i,
    {
        out.push(tail[i]);
        assert(tail@.take(i + 1) =~= tail@.take(i as int).push(tail@[i as int]));
        i += 1;
    }
    assert(tail@.take(tail.len() as int) =~= tail@);
}

// == Decimal numbers ==========================================================

/// Whether a character is one of `0` to `9`.
pub open spec fn is_digit(c: char) -> bool {
    '0' <= c && c <= '9'
}

/// The number a digit stands for.
pub open spec fn digit_value(c: char) -> nat {
    (c as int - '0' as int) as nat
}

/// The digit that stands for a number below ten.
pub open spec fn digit_char(d: nat) -> char {
    (('0' as int + d) as u8) as char
}

/// Whether every character is a digit.
pub open spec fn all_digits(s: Seq<char>) -> bool {
    forall|i: int| 0 <= i < s.len() ==> #[trigger] is_digit(s[i])
}

/// The number written by a sequence of decimal digits, most significant first.
pub open spec fn decimal_value(s: Seq<char>) -> nat
    decreases s.len(),
{
    if s.len() == 0 {
        0
    } else {
        decimal_value(s.drop_last()) * 10 + digit_value(s.last())
    }
}

/// A number written in decimal without leading zeros.
pub open spec fn decimal(n: nat) -> Seq<char>
    decreases n,
{
    if n < 10 {
        seq![digit_char(n)]
    } else {
        decimal(n / 10).push(digit_char(n % 10))
    }
}

/// An integer written in decimal, with a minus sign in front of a negative one.
pub open spec fn signed_decimal(n: int) -> Seq<char> {
    if n < 0 {
        seq!['-'] + decimal((-n) as nat)
    } else {
        decimal(n as nat)
    }
}

/// The number below or equal to `max` that a text writes in decimal: one or more digits,
/// after an optional plus sign.
pub open spec fn parse_unsigned(s: Seq<char>, max: nat) -> Option<nat> {
    let body = if s.len() > 0 && s[0] == '+' {
        s.skip(1)
    } else {
        s
    };
    if body.len() > 0 && all_digits(body) && decimal_value(body) <= max {
        Some(decimal_value(body))
    } else {
        None
    }
}

/// The integer from `-max - 1` to `max` that a text writes in decimal: one or more digits,
/// after an optional sign.
pub open spec fn parse_signed(s: Seq<char>, max: nat) -> Option<int> {
    if s.len() > 0 && s[0] == '-' {
        let body = s.skip(1);
        if body.len() > 0 && all_digits(body) && decimal_value(body) <= max + 1 {
            Some(-(decimal_value(body) as int))
        } else {
            None
        }
    } else {
        match parse_unsigned(s, max) {
            Some(n) => Some(n as int),
            None => None,
        }
    }
}

/// Appends a number in decimal.
pub fn push_decimal(out: &mut String, n: u64)
    ensures
        final(out)@ == old(out)@ + decimal(n as nat),
    decreases n,
{
    if n >= 10 {
        push_decimal(out, n / 10);
    }
    let d: u8 = (n % 10) as u8;
    out.push((48u8 + d) as char);
}

/// A number written in decimal.
pub fn decimal_text(n: u64) -> (out: String)
    ensures
        out@ == decimal(n as nat),
{
    let mut out = String::new();
    push_decimal(&mut out, n);
    out
}

/// Appends an integer in decimal.
pub fn push_signed(out: &mut String, n: i64)
    ensures
        final(out)@ == old(out)@ + signed_decimal(n as int),
{
    if n < 0 {
        out.push('-');
        let magnitude: u64 = (-(n as i128)) as u64;
        push_decimal(out, magnitude);
    } else {
        push_decimal(out, n as u64);
    }
}

/// An integer written in decimal.
pub fn signed_text(n: i64) -> (out: String)
    ensures
        out@ == signed_decimal(n as int),
{
    let mut out = String::new();
    push_signed(&mut out, n);
    out
}

/// The value of a run of digits grows with the run.
proof fn lemma_decimal_value_prefix(s: Seq<char>, i: int)
    requires
        0 <= i <= s.len(),
        all_digits(s),
    ensures
        decimal_value(s.take(i)) <= decimal_value(s),
    decreases s.len() - i,
{
    if i == s.len() {
        assert(s.take(i) =~= s);
    } else {
        lemma_decimal_value_prefix(s, i + 1);
        assert(s.take(i + 1).drop_last() =~= s.take(i));
    }
}

/// Reads a run of digits whose value is at most `max`.
fn read_digits(s: &[char], max: u64) -> (n: Option<u64>)
    ensures
        n == (if s@.len() > 0 && all_digits(s@) && decimal_value(s@) <= max {
            Some(decimal_value(s@) as u64)
        } else {
            None
        }),
{
    if s.len() == 0 {
        return None;
    }
    let mut n: u64 = 0;
    let mut i: usize = 0;
    while i < s.len()
        invariant
            0 < s.len(),
            i <= s.len(),
            n == decimal_value(s@.take(i as int)),
            n <= max,
            all_digits(s@.take(i as int)),
        decreases s.len() - i,
    {
        let c = s[i];
        assert(s@.take(i + 1).drop_last() =~= s@.take(i as int));
        assert(s@.take(i + 1).last() == c);
        if !('0' <= c && c <= '9') {
            assert(!is_digit(s@[i as int]));
            return None;
        }
        let d: u64 = c as u64 - 48;
        assert(decimal_value(s@.take(i + 1)) == n * 10 + d);
        let wide: u128 = n as u128 * 10 + d as u128;
        if wide > max as u128 {
            proof {
                if all_digits(s@) {
                    lemma_decimal_value_prefix(s@, i + 1);
                }
            }
            return None;
        }
        n = wide as u64;
        i += 1;
    }
    assert(s@.take(s.len() as int) =~= s@);
    Some(n)
}

/// Reads an unsigned number of at most `max`: digits after an optional plus sign.
pub fn read_unsigned(s: &[char], max: u64) -> (n: Option<u64>)
    ensures
        n is Some <==> parse_unsigned(s@, max as nat) is Some,
        n is Some ==> n->0 as nat == parse_unsigned(s@, max as nat)->0,
{
    if s.len() > 0 && s[0] == '+' {
        let body = vstd::slice::slice_subrange(s, 1, s.len());
        assert(body@ =~= s@.skip(1));
        read_digits(body, max)
    } else {
        read_digits(s, max)
    }
}

/// Reads a signed 64-bit number: digits after an optional sign.
pub fn read_signed(s: &[char]) -> (n: Option<i64>)
    ensures
        n is Some <==> parse_signed(s@, i64::MAX as nat) is Some,
        n is Some ==> n->0 as int == parse_signed(s@, i64::MAX as nat)->0,
{
    if s.len() > 0 && s[0] == '-' {
        let body = vstd::slice::slice_subrange(s, 1, s.len());
        assert(body@ =~= s@.skip(1));
        match read_digits(body, 0x8000_0000_0000_0000u64) {
            Some(m) => Some((-(m as i128)) as i64),
            None => None,
        }
    } else {
        match read_unsigned(s, 0x7fff_ffff_ffff_ffffu64) {
            Some(m) => Some(m as i64),
            None => None,
        }
    }
}

/// Printing a number in decimal writes digits only, at least one of them, that stand for it.
pub proof fn lemma_decimal_reads_back(n: nat)
    ensures
        decimal(n).len() > 0,
        all_digits(decimal(n)),
        decimal_value(decimal(n)) == n,
    decreases n,
{
    if n < 10 {
        assert(decimal(n).drop_last() =~= Seq::<char>::empty());
        assert(decimal_value(Seq::<char>::empty()) == 0);
        assert(decimal_value(decimal(n)) == digit_value(digit_char(n)));
    } else {
        lemma_decimal_reads_back(n / 10);
        assert(decimal(n).drop_last() =~= decimal(n / 10));
        let d = decimal(n);
        assert forall|i: int| 0 <= i < d.len() implies #[trigger] is_digit(d[i]) by {
            if i < d.len() - 1 {
                assert(d[i] == decimal(n / 10)[i]);
                assert(is_digit(decimal(n / 10)[i]));
            }
        }
    }
}

/// A number printed in decimal reads back as itself.
pub proof fn law_decimal_round_trip(n: nat, max: nat)
    requires
        n <= max,
    ensures
        parse_unsigned(decimal(n), max) == Some(n),
{
    lemma_decimal_reads_back(n);
    assert(is_digit(decimal(n)[0]));
}

/// A signed number printed in decimal reads back as itself.
pub proof fn law_signed_decimal_round_trip(n: int, max: nat)
    requires
        -max - 1 <= n <= max,
    ensures
        parse_signed(signed_decimal(n), max) == Some(n),
{
    if n < 0 {
        lemma_decimal_reads_back((-n) as nat);
        assert(signed_decimal(n).skip(1) =~= decimal((-n) as nat));
    } else {
        lemma_decimal_reads_back(n as nat);
        assert(is_digit(decimal(n as nat)[0]));
    }
}

// == Hexadecimal numbers ======================================================

/// The upper case hexadecimal digit of a number below sixteen.
pub open spec fn hex_char(d: nat) -> char {
    if d < 10 {
        digit_char(d)
    } else {
        (('A' as int + (d - 10)) as u8) as char
    }
}

/// The last `width` hexadecimal digits of a number, most significant first.
pub open spec fn hex(n: nat, width: nat) -> Seq<char>
    decreases width,
{
    if width == 0 {
        Seq::empty()
    } else {
        hex(n / 16, (width - 1) as nat).push(hex_char(n % 16))
    }
}

/// Appends the last `width` hexadecimal digits of a number.
pub fn push_hex(out: &mut String, n: u32, width: u32)
    ensures
        final(out)@ == old(out)@ + hex(n as nat, width as nat),
    decreases width,
{
    if width > 0 {
        push_hex(out, n / 16, width - 1);
        let d: u8 = (n % 16) as u8;
        if d < 10 {
            out.push((48u8 + d) as char);
        } else {
            out.push((55u8 + d) as char);
        }
    }
}

/// A 32-bit number as `0x` and eight hexadecimal digits.
pub open spec fn hex32(n: nat) -> Seq<char> {
    "0x"@ + hex(n, 8)
}

/// Appends a 32-bit number as `0x` and eight hexadecimal digits.
pub fn push_hex32(out: &mut String, n: u32)
    ensures
        final(out)@ == old(out)@ + hex32(n as nat),
{
    out.append("0x");
    push_hex(out, n, 8);
}

/// How many hexadecimal digits a number takes.
pub open spec fn hex_width(n: nat) -> nat
    decreases n,
{
    if n < 16 {
        1
    } else {
        1 + hex_width(n / 16)
    }
}

/// A number in hexadecimal behind `0x`, with at least three digits.
pub open spec fn hex_id(n: nat) -> Seq<char> {
    "0x"@ + hex(
        n,
        if hex_width(n) < 3 {
            3
        } else {
            hex_width(n)
        },
    )
}

/// How many hexadecimal digits a number takes.
fn count_hex(n: u32) -> (width: u32)
    ensures
        width == hex_width(n as nat),
        width <= 8,
{
    let mut rest: u32 = n;
    let mut width: u32 = 1;
    let ghost mut bound: nat = 0x1_0000_0000;
    while rest >= 16
        invariant
            1 <= width <= 8,
            width - 1 + hex_width(rest as nat) == hex_width(n as nat),
            rest < bound,
            width == 1 ==> bound == 0x1_0000_0000,
            width == 2 ==> bound == 0x1000_0000,
            width == 3 ==> bound == 0x100_0000,
            width == 4 ==> bound == 0x10_0000,
            width == 5 ==> bound == 0x1_0000,
            width == 6 ==> bound == 0x1000,
            width == 7 ==> bound == 0x100,
            width == 8 ==> bound == 0x10,
        decreases rest,
    {
        rest = rest / 16;
        width = width + 1;
        proof {
            bound = bound / 16;
        }
    }
    width
}

/// A number in hexadecimal behind `0x`, with at least three digits.
pub fn hex_id_text(n: u32) -> (out: String)
    ensures
        out@ == hex_id(n as nat),
{
    let width: u32 = count_hex(n);
    let mut out = "0x".to_owned();
    push_hex(
        &mut out,
        n,
        if width < 3 {
            3
        } else {
            width
        },
    );
    out
}

// == White space and trimming =================================================

/// The Unicode White_Space property.
pub open spec fn is_white_space(c: char) -> bool {
    let n = c as int;
    ||| 0x9 <= n <= 0xD
    ||| n == 0x20
    ||| n == 0x85
    ||| n == 0xA0
    ||| n == 0x1680
    ||| 0x2000 <= n <= 0x200A
    ||| n == 0x2028
    ||| n == 0x2029
    ||| n == 0x202F
    ||| n == 0x205F
    ||| n == 0x3000
}

/// Whether a character has the White_Space property.
pub fn white_space(c: char) -> (yes: bool)
    ensures
        yes == is_white_space(c),
{
    let n: u32 = c as u32;
    (0x9 <= n && n <= 0xD) || n == 0x20 || n == 0x85 || n == 0xA0 || n == 0x1680 || (0x2000 <= n
        && n <= 0x200A) || n == 0x2028 || n == 0x2029 || n == 0x202F || n == 0x205F || n == 0x3000
}

/// A text without the white space at its front.
pub open spec fn trim_front(s: Seq<char>) -> Seq<char>
    decreases s.len(),
{
    if s.len() > 0 && is_white_space(s[0]) {
        trim_front(s.skip(1))
    } else {
        s
    }
}

/// A text without the white space at its back.
pub open spec fn trim_back(s: Seq<char>) -> Seq<char>
    decreases s.len(),
{
    if s.len() > 0 && is_white_space(s.last()) {
        trim_back(s.drop_last())
    } else {
        s
    }
}

/// A text without the white space around it.
pub open spec fn trimmed(s: Seq<char>) -> Seq<char> {
    trim_back(trim_front(s))
}

/// The part of `s` between the white space around it.
pub fn trim<'a>(s: &'a [char]) -> (out: &'a [char])
    ensures
        out@ == trimmed(s@),
{
    let mut lo: usize = 0;
    assert(s@.skip(0) =~= s@);
    while lo < s.len() && white_space(s[lo])
        invariant
            lo <= s.len(),
            trim_front(s@) == trim_front(s@.skip(lo as int)),
        decreases s.len() - lo,
    {
        assert(s@.skip(lo as int).skip(1) =~= s@.skip(lo + 1));
        lo += 1;
    }
    let ghost front = s@.skip(lo as int);
    assert(trim_front(s@) == front);
    let mut hi: usize = s.len();
    assert(front.take((hi - lo) as int) =~= front);
    while hi > lo && white_space(s[hi - 1])
        invariant
            lo <= hi <= s.len(),
            front == s@.skip(lo as int),
            trim_back(front) == trim_back(front.take((hi - lo) as int)),
        decreases hi,
    {
        assert(front.take((hi - lo) as int).drop_last() =~= front.take((hi - lo - 1) as int));
        hi -= 1;
    }
    let out = vstd::slice::slice_subrange(s, lo, hi);
    assert(out@ =~= front.take((hi - lo) as int));
    out
}

/// A text without the given character at its back, however often it stands there.
pub open spec fn trim_end(s: Seq<char>, c: char) -> Seq<char>
    decreases s.len(),
{
    if s.len() > 0 && s.last() == c {
        trim_end(s.drop_last(), c)
    } else {
        s
    }
}

/// A decimal number without the zeros at its back, nor the point where no digit is left behind
/// it.
pub open spec fn short_decimal(s: Seq<char>) -> Seq<char> {
    trim_end(trim_end(s, '0'), '.')
}

/// How long a text is without the given character at its back.
fn end_before(s: &[char], c: char, from: usize) -> (end: usize)
    requires
        from <= s@.len(),
    ensures
        end <= from,
        s@.take(end as int) == trim_end(s@.take(from as int), c),
{
    let mut end: usize = from;
    while end > 0 && s[end - 1] == c
        invariant
            end <= from <= s.len(),
            trim_end(s@.take(from as int), c) == trim_end(s@.take(end as int), c),
        decreases end,
    {
        assert(s@.take(end as int).drop_last() =~= s@.take(end - 1));
        end -= 1;
    }
    end
}

/// A decimal number without the zeros at its back, nor the point where no digit is left behind
/// it.
pub fn short_decimal_text(digits: &str) -> (out: String)
    ensures
        out@ == short_decimal(digits@),
{
    let chars = chars_of(digits);
    assert(chars@.take(chars@.len() as int) =~= chars@);
    let end: usize = end_before(chars.as_slice(), '0', chars.len());
    let end: usize = end_before(chars.as_slice(), '.', end);
    let kept = vstd::slice::slice_subrange(chars.as_slice(), 0, end);
    assert(kept@ =~= chars@.take(end as int));
    string_of(kept)
}

/// The zeros at the back of a text go, down to its last other character.
proof fn lemma_trim_end_of_zeros(s: Seq<char>, n: nat)
    requires
        s.len() == 0 || s.last() != '0',
    ensures
        trim_end(s + Seq::new(n, |i: int| '0'), '0') == s,
    decreases n,
{
    let all = s + Seq::new(n, |i: int| '0');
    if n == 0 {
        assert(all =~= s);
    } else {
        let m = (n - 1) as nat;
        assert(all.drop_last() =~= s + Seq::new(m, |i: int| '0'));
        lemma_trim_end_of_zeros(s, m);
    }
}

/// A decimal number loses the zeros behind its last other digit, and nothing else; a whole one
/// loses the point too.
pub proof fn law_short_decimal_drops_zeros_only(whole: Seq<char>, part: Seq<char>, zeros: nat)
    requires
        whole.len() == 0 || whole.last() != '.',
        part.len() == 0 || (part.last() != '0' && part.last() != '.'),
    ensures
        short_decimal(whole.push('.') + part + Seq::new(zeros, |i: int| '0')) == (if part.len()
            == 0 {
            whole
        } else {
            whole.push('.') + part
        }),
{
    let kept = whole.push('.') + part;
    if part.len() == 0 {
        assert(kept =~= whole.push('.'));
        lemma_trim_end_of_zeros(kept, zeros);
        assert(kept.drop_last() =~= whole);
        assert(trim_end(whole, '.') == whole);
    } else {
        assert(kept.last() == part.last());
        lemma_trim_end_of_zeros(kept, zeros);
    }
}

/// Digits have no white space around them, so that trimming leaves them as they are.
pub proof fn lemma_digits_are_trimmed(s: Seq<char>)
    requires
        all_digits(s),
    ensures
        trimmed(s) == s,
{
    if s.len() > 0 {
        assert(is_digit(s[0]));
        assert(is_digit(s.last()));
    }
}

/// A number printed in decimal and trimmed reads back as itself.
pub proof fn lemma_trimmed_decimal_reads_back(n: nat, max: nat)
    requires
        n <= max,
    ensures
        parse_unsigned(trimmed(decimal(n)), max) == Some(n),
{
    lemma_decimal_reads_back(n);
    lemma_digits_are_trimmed(decimal(n));
    law_decimal_round_trip(n, max);
}

/// A string without the white space around it.
pub fn trim_text(s: &str) -> (out: String)
    ensures
        out@ == trimmed(s@),
{
    let chars = chars_of(s);
    string_of(trim(chars.as_slice()))
}

/// Whether a string holds nothing but white space.
pub fn is_blank(s: &str) -> (yes: bool)
    ensures
        yes == (trimmed(s@).len() == 0),
{
    let chars = chars_of(s);
    trim(chars.as_slice()).len() == 0
}

// == Splitting ================================================================

/// The position of the first `c` in `s`, or the length of `s` where there is none.
pub open spec fn find(s: Seq<char>, c: char) -> int
    decreases s.len(),
{
    if s.len() == 0 || s[0] == c {
        0
    } else {
        1 + find(s.skip(1), c)
    }
}

/// `find` gives the least position of the character.
pub proof fn lemma_find(s: Seq<char>, c: char)
    ensures
        0 <= find(s, c) <= s.len(),
        forall|i: int| 0 <= i < find(s, c) ==> s[i] != c,
        find(s, c) < s.len() ==> s[find(s, c)] == c,
    decreases s.len(),
{
    if s.len() > 0 && s[0] != c {
        lemma_find(s.skip(1), c);
        assert forall|i: int| 0 <= i < find(s, c) implies s[i] != c by {
            if i > 0 {
                assert(s[i] == s.skip(1)[i - 1]);
            }
        }
    }
}

/// The least position of a character is the only one that `find` can give.
pub proof fn lemma_find_is(s: Seq<char>, c: char, at: int)
    requires
        0 <= at <= s.len(),
        forall|i: int| 0 <= i < at ==> s[i] != c,
        at < s.len() ==> s[at] == c,
    ensures
        find(s, c) == at,
{
    lemma_find(s, c);
}

/// The position of the first `c`, or the length of `s` where there is none.
pub fn find_char(s: &[char], c: char) -> (at: usize)
    ensures
        at == find(s@, c),
        at <= s@.len(),
{
    let mut i: usize = 0;
    while i < s.len() && s[i] != c
        invariant
            i <= s.len(),
            forall|k: int| 0 <= k < i ==> s@[k] != c,
        decreases s.len() - i,
    {
        i += 1;
    }
    proof {
        lemma_find_is(s@, c, i as int);
    }
    i
}

/// The pieces of a text between the occurrences of a separator.
pub open spec fn split(s: Seq<char>, sep: char) -> Seq<Seq<char>>
    decreases s.len(),
{
    let at = find(s, sep);
    if at < s.len() {
        proof {
            lemma_find(s, sep);
        }
        seq![s.take(at)] + split(s.skip(at + 1), sep)
    } else {
        seq![s]
    }
}

/// The pieces of two texts with a separator between them are the pieces of the one, then those
/// of the other.
pub proof fn law_split_at_a_separator(a: Seq<char>, b: Seq<char>, sep: char)
    ensures
        split(a.push(sep) + b, sep) == split(a, sep) + split(b, sep),
    decreases a.len(),
{
    let all = a.push(sep) + b;
    let at = find(a, sep);
    lemma_find(a, sep);
    lemma_find_is(all, sep, at);
    if at < a.len() {
        let rest = a.skip(at + 1);
        assert(all.take(at) =~= a.take(at));
        assert(all.skip(at + 1) =~= rest.push(sep) + b);
        law_split_at_a_separator(rest, b, sep);
        assert(split(all, sep) =~= split(a, sep) + split(b, sep));
    } else {
        assert(all.take(at) =~= a);
        assert(all.skip(at + 1) =~= b);
    }
}

/// The texts shown by a list of character lists.
pub open spec fn shown(parts: Seq<Vec<char>>) -> Seq<Seq<char>> {
    parts.map_values(|p: Vec<char>| p@)
}

/// The pieces of `s` between the occurrences of `sep`.
pub fn split_chars(s: &[char], sep: char) -> (out: Vec<Vec<char>>)
    ensures
        shown(out@) == split(s@, sep),
{
    let mut out: Vec<Vec<char>> = Vec::new();
    let mut from: usize = 0;
    assert(s@.skip(0) =~= s@);
    assert(shown(out@) + split(s@, sep) =~= split(s@, sep));
    loop
        invariant
            from <= s.len(),
            shown(out@) + split(s@.skip(from as int), sep) == split(s@, sep),
        decreases s.len() - from,
    {
        let rest = vstd::slice::slice_subrange(s, from, s.len());
        assert(rest@ =~= s@.skip(from as int));
        let at: usize = find_char(rest, sep);
        let ghost before = shown(out@);
        proof {
            lemma_find(rest@, sep);
        }
        let piece = vstd::slice::slice_to_vec(vstd::slice::slice_subrange(rest, 0, at));
        assert(piece@ =~= rest@.take(at as int));
        out.push(piece);
        assert(shown(out@) =~= before.push(rest@.take(at as int)));
        if at == rest.len() {
            assert(rest@.take(at as int) =~= rest@);
            assert(shown(out@) =~= before + seq![rest@]);
            return out;
        }
        assert(rest@.skip(at + 1) =~= s@.skip(from + at + 1));
        assert(before + (seq![rest@.take(at as int)] + split(rest@.skip(at + 1), sep)) =~= before.push(
            rest@.take(at as int),
        ) + split(rest@.skip(at + 1), sep));
        from = from + at + 1;
    }
}

/// What stands after the last `c`, or the whole text where there is none.
pub open spec fn after_last(s: Seq<char>, c: char) -> Seq<char>
    decreases s.len(),
{
    if s.len() == 0 || s.last() == c {
        Seq::empty()
    } else {
        after_last(s.drop_last(), c).push(s.last())
    }
}

/// What stands after the last `c` of a string, or the whole of it where there is none.
pub fn last_part(s: &str, c: char) -> (out: String)
    ensures
        out@ == after_last(s@, c),
{
    let chars = chars_of(s);
    let mut from: usize = chars.len();
    assert(chars@.skip(from as int) =~= Seq::empty());
    assert(chars@.take(from as int) =~= chars@);
    assert(after_last(chars@, c) =~= after_last(chars@.take(from as int), c) + chars@.skip(
        from as int,
    ));
    while from > 0 && chars[from - 1] != c
        invariant
            from <= chars.len(),
            after_last(chars@, c) == after_last(chars@.take(from as int), c) + chars@.skip(
                from as int,
            ),
        decreases from,
    {
        proof {
            let head = chars@.take(from as int);
            assert(head.drop_last() =~= chars@.take(from - 1));
            assert(after_last(head, c) =~= after_last(head.drop_last(), c).push(
                chars@[from - 1],
            ));
            assert(after_last(chars@, c) =~= after_last(chars@.take(from - 1), c) + chars@.skip(
                from - 1,
            ));
        }
        from -= 1;
    }
    let tail = vstd::slice::slice_subrange(chars.as_slice(), from, chars.len());
    assert(tail@ =~= chars@.skip(from as int));
    assert(after_last(chars@.take(from as int), c) =~= Seq::empty());
    assert(after_last(chars@, c) =~= tail@);
    string_of(tail)
}

// == Joining and lists ========================================================

/// Texts with a separator between each two.
pub open spec fn joined(parts: Seq<Seq<char>>, sep: Seq<char>) -> Seq<char>
    decreases parts.len(),
{
    if parts.len() == 0 {
        Seq::empty()
    } else if parts.len() == 1 {
        parts[0]
    } else {
        joined(parts.drop_last(), sep) + sep + parts.last()
    }
}

/// The decimal texts of a list of node ids.
pub open spec fn decimals(ids: Seq<u16>) -> Seq<Seq<char>> {
    ids.map_values(|n: u16| decimal(n as nat))
}

/// Node ids in decimal, separated by a comma and a space.
pub open spec fn id_list(ids: Seq<u16>) -> Seq<char> {
    joined(decimals(ids), ", "@)
}

/// Node ids in square brackets, as in `[0, 3]`.
pub open spec fn bracketed(ids: Seq<u16>) -> Seq<char> {
    "["@ + id_list(ids) + "]"@
}

/// Node ids in braces, as in `{0, 3}`.
pub open spec fn braced(ids: Seq<u16>) -> Seq<char> {
    "{"@ + id_list(ids) + "}"@
}

/// Appends node ids in decimal, separated by a comma and a space.
pub fn push_id_list(out: &mut String, ids: &[u16])
    ensures
        final(out)@ == old(out)@ + id_list(ids@),
{
    let mut i: usize = 0;
    assert(decimals(ids@.take(0)) =~= Seq::empty());
    assert(out@ =~= old(out)@ + id_list(ids@.take(0)));
    while i < ids.len()
        invariant
            i <= ids.len(),
            out@ == old(out)@ + id_list(ids@.take(i as int)),
        decreases ids.len() - i,
    {
        if i > 0 {
            out.append(", ");
        }
        push_decimal(out, ids[i] as u64);
        assert(decimals(ids@.take(i + 1)).drop_last() =~= decimals(ids@.take(i as int)));
        assert(decimals(ids@.take(i + 1)).last() == decimal(ids@[i as int] as nat));
        assert(out@ =~= old(out)@ + id_list(ids@.take(i + 1)));
        i += 1;
    }
    assert(ids@.take(ids.len() as int) =~= ids@);
}

/// Appends node ids in square brackets.
pub fn push_bracketed(out: &mut String, ids: &[u16])
    ensures
        final(out)@ == old(out)@ + bracketed(ids@),
{
    out.append("[");
    push_id_list(out, ids);
    out.append("]");
    assert(out@ =~= old(out)@ + bracketed(ids@));
}

/// Appends node ids in braces.
pub fn push_braced(out: &mut String, ids: &[u16])
    ensures
        final(out)@ == old(out)@ + braced(ids@),
{
    out.append("{");
    push_id_list(out, ids);
    out.append("}");
    assert(out@ =~= old(out)@ + braced(ids@));
}

// == Letter case ==============================================================

/// An ASCII capital as its small letter; any other character as it is.
pub open spec fn ascii_lower_char(c: char) -> char {
    if 'A' <= c && c <= 'Z' {
        ((c as int + 32) as u8) as char
    } else {
        c
    }
}

/// A text with its ASCII capitals made small.
pub open spec fn ascii_lower(s: Seq<char>) -> Seq<char> {
    s.map_values(|c: char| ascii_lower_char(c))
}

/// A text with its ASCII capitals made small.
pub fn lower_chars(s: &[char]) -> (out: Vec<char>)
    ensures
        out@ == ascii_lower(s@),
{
    let mut out: Vec<char> = Vec::new();
    let mut i: usize = 0;
    while i < s.len()
        invariant
            i <= s.len(),
            out@ == ascii_lower(s@.take(i as int)),
        decreases s.len() - i,
    {
        let c = s[i];
        let small = if 'A' <= c && c <= 'Z' {
            (c as u8 + 32) as char
        } else {
            c
        };
        out.push(small);
        assert(ascii_lower(s@.take(i + 1)) =~= ascii_lower(s@.take(i as int)).push(
            ascii_lower_char(c),
        ));
        i += 1;
    }
    assert(s@.take(s.len() as int) =~= s@);
    out
}

/// Whether two texts are the same but for the case of ASCII letters.
pub fn same_ignoring_case(a: &str, b: &str) -> (same: bool)
    ensures
        same == (ascii_lower(a@) == ascii_lower(b@)),
{
    let x = chars_of(a);
    let y = chars_of(b);
    let lower_x = string_of(lower_chars(x.as_slice()).as_slice());
    let lower_y = string_of(lower_chars(y.as_slice()).as_slice());
    lower_x == lower_y
}

/// Whether `s` starts with `prefix`.
pub open spec fn has_prefix(s: Seq<char>, prefix: Seq<char>) -> bool {
    prefix.len() <= s.len() && s.take(prefix.len() as int) == prefix
}

/// What follows `prefix` in `s`, where `s` starts with it.
pub fn strip_prefix<'a>(s: &'a [char], prefix: &str) -> (rest: Option<&'a [char]>)
    ensures
        rest is Some <==> has_prefix(s@, prefix@),
        rest is Some ==> (rest->0)@ == s@.skip(prefix@.len() as int),
{
    let p = chars_of(prefix);
    if s.len() < p.len() {
        return None;
    }
    let mut i: usize = 0;
    while i < p.len()
        invariant
            i <= p.len() <= s.len(),
            p@ == prefix@,
            forall|k: int| 0 <= k < i ==> s@[k] == p@[k],
        decreases p.len() - i,
    {
        if s[i] != p[i] {
            assert(s@.take(p.len() as int)[i as int] != p@[i as int]);
            return None;
        }
        i += 1;
    }
    assert(s@.take(p.len() as int) =~= p@);
    let rest = vstd::slice::slice_subrange(s, p.len(), s.len());
    assert(rest@ =~= s@.skip(p.len() as int));
    Some(rest)
}

// == Laws of searching and trimming ===========================================

/// A search finds the first place of a character, and the end where there is none.
pub proof fn law_search_finds_the_first(a: Seq<char>, b: Seq<char>, c: char)
    requires
        !a.contains(c),
    ensures
        find(a + seq![c] + b, c) == a.len(),
        find(a, c) == a.len(),
    decreases a.len(),
{
    let s = a + seq![c] + b;
    if a.len() > 0 {
        assert(a.contains(a[0]));
        assert(s.skip(1) =~= a.skip(1) + seq![c] + b);
        assert forall|i: int| 0 <= i < a.skip(1).len() implies a.skip(1)[i] != c by {
            assert(a[i + 1] == a.skip(1)[i]);
            assert(a.contains(a[i + 1]));
        }
        law_search_finds_the_first(a.skip(1), b, c);
    }
}

/// The last part of a text is what stands behind the last separator, all of it where there is
/// none.
pub proof fn law_last_part_follows_the_last_separator(a: Seq<char>, b: Seq<char>, c: char)
    requires
        !b.contains(c),
    ensures
        after_last(a + seq![c] + b, c) == b,
        after_last(b, c) == b,
    decreases b.len(),
{
    let s = a + seq![c] + b;
    if b.len() == 0 {
        assert(s.last() == c);
        assert(after_last(s, c) =~= b);
    } else {
        assert(b.contains(b.last()));
        let most = b.drop_last();
        assert forall|i: int| 0 <= i < most.len() implies most[i] != c by {
            assert(b[i] == most[i]);
            assert(b.contains(b[i]));
        }
        law_last_part_follows_the_last_separator(a, most, c);
        assert(s.drop_last() =~= a + seq![c] + most);
        assert(most.push(b.last()) =~= b);
    }
}

/// White space alone.
pub open spec fn is_space(s: Seq<char>) -> bool {
    forall|i: int| 0 <= i < s.len() ==> is_white_space(#[trigger] s[i])
}

/// Trimming takes white space off both ends and nothing else: a text that neither begins nor
/// ends with white space is what is left of it, whatever white space stands around it.
pub proof fn law_trimming_takes_space_off_the_ends(
    before: Seq<char>,
    s: Seq<char>,
    behind: Seq<char>,
)
    requires
        is_space(before),
        is_space(behind),
        s.len() > 0 ==> !is_white_space(s[0]) && !is_white_space(s.last()),
    ensures
        trimmed(before + s + behind) == s,
{
    lemma_trim_front(before, s + behind);
    assert(before + s + behind =~= before + (s + behind));
    if s.len() > 0 {
        assert(trim_front(s + behind) == s + behind);
        lemma_trim_back(s, behind);
    } else {
        assert(s + behind =~= behind + Seq::empty());
        lemma_trim_front(behind, Seq::empty());
        assert(trim_front(Seq::<char>::empty()) == Seq::<char>::empty());
        assert(s =~= Seq::empty());
    }
}

proof fn lemma_trim_front(before: Seq<char>, s: Seq<char>)
    requires
        is_space(before),
    ensures
        trim_front(before + s) == trim_front(s),
    decreases before.len(),
{
    if before.len() == 0 {
        assert(before + s =~= s);
    } else {
        assert(is_white_space(before[0]));
        assert((before + s).skip(1) =~= before.skip(1) + s);
        assert forall|i: int| 0 <= i < before.skip(1).len() implies is_white_space(
            #[trigger] before.skip(1)[i],
        ) by {
            assert(before.skip(1)[i] == before[i + 1]);
        }
        lemma_trim_front(before.skip(1), s);
    }
}

proof fn lemma_trim_back(s: Seq<char>, behind: Seq<char>)
    requires
        is_space(behind),
        s.len() > 0,
        !is_white_space(s.last()),
    ensures
        trim_back(s + behind) == s,
    decreases behind.len(),
{
    if behind.len() == 0 {
        assert(s + behind =~= s);
    } else {
        assert(is_white_space(behind[behind.len() - 1]));
        assert((s + behind).drop_last() =~= s + behind.drop_last());
        assert forall|i: int| 0 <= i < behind.drop_last().len() implies is_white_space(
            #[trigger] behind.drop_last()[i],
        ) by {
            assert(behind.drop_last()[i] == behind[i]);
        }
        lemma_trim_back(s, behind.drop_last());
    }
}

/// Characters that are the same letter, whatever its case.
pub open spec fn same_letter(a: char, b: char) -> bool {
    ||| a == b
    ||| 'A' <= a <= 'Z' && b as int == a as int + 32
    ||| 'A' <= b <= 'Z' && a as int == b as int + 32
}

/// Two texts are the same but for the case of letters where they are as long and each character
/// is the same letter.
pub proof fn law_case_does_not_count(a: Seq<char>, b: Seq<char>)
    ensures
        ascii_lower(a) == ascii_lower(b) <==> a.len() == b.len() && forall|i: int|
            0 <= i < a.len() ==> same_letter(#[trigger] a[i], b[i]),
{
    let (x, y) = (ascii_lower(a), ascii_lower(b));
    if x == y {
        assert forall|i: int| 0 <= i < a.len() implies same_letter(#[trigger] a[i], b[i]) by {
            assert(x[i] == y[i]);
            assert(ascii_lower_char(a[i]) == ascii_lower_char(b[i]));
        }
    }
    if a.len() == b.len() && forall|i: int|
        0 <= i < a.len() ==> same_letter(#[trigger] a[i], b[i]) {
        assert forall|i: int| 0 <= i < x.len() implies x[i] == y[i] by {
            assert(same_letter(a[i], b[i]));
        }
        assert(x =~= y);
    }
}

/// Texts are joined with the separator between each two.
pub proof fn law_joined_texts_are_separated(parts: Seq<Seq<char>>, part: Seq<char>, sep: Seq<char>)
    ensures
        joined(seq![part], sep) == part,
        parts.len() > 0 ==> joined(parts.push(part), sep) == joined(parts, sep) + sep + part,
        joined(Seq::empty(), sep).len() == 0,
{
    assert(parts.push(part).drop_last() =~= parts);
}

/// A number is written digit by digit, the last digit last.
pub proof fn law_decimal_adds_digits(n: nat, d: nat)
    requires
        d < 10,
    ensures
        "0123456789"@[d as int] == digit_char(d),
        decimal(d) == seq![digit_char(d)],
        n > 0 ==> decimal(10 * n + d) == decimal(n).push(digit_char(d)),
{
    reveal_strlit("0123456789");
    assert((10 * n + d) / 10 == n && (10 * n + d) % 10 == d);
}

/// A negative number is written with a minus sign before its opposite.
pub proof fn law_signs_stand_in_front(n: nat)
    ensures
        signed_decimal(n as int) == decimal(n),
        n > 0 ==> signed_decimal(-(n as int)) == seq!['-'] + decimal(n),
{
}

/// A text of digits is read digit by digit; a text with anything else, but for a plus sign in
/// front, is no number.
pub proof fn law_numbers_are_read_digit_by_digit(s: Seq<char>, d: nat, max: nat)
    requires
        s.len() > 0,
        all_digits(s),
        d < 10,
    ensures
        parse_unsigned(seq![digit_char(d)], max) == (if d <= max {
            Some(d)
        } else {
            None::<nat>
        }),
        decimal_value(s.push(digit_char(d))) == 10 * decimal_value(s) + d,
        parse_unsigned(s, max) == (if decimal_value(s) <= max {
            Some(decimal_value(s))
        } else {
            None::<nat>
        }),
        parse_unsigned(seq!['+'] + s, max) == parse_unsigned(s, max),
{
    let one = seq![digit_char(d)];
    assert(one.drop_last() =~= Seq::empty());
    assert(is_digit(digit_char(d)));
    assert(is_digit(s[0]));
    assert(all_digits(one));
    reveal_with_fuel(decimal_value, 2);
    assert(decimal_value(one) == d);
    assert(s.push(digit_char(d)).drop_last() =~= s);
    assert((seq!['+'] + s).skip(1) =~= s);
}

/// A text that holds a character that is no digit, behind its first, is no number; nor is an
/// empty one.
pub proof fn law_other_texts_are_no_numbers(s: Seq<char>, i: int, max: nat)
    requires
        0 <= i < s.len(),
        !is_digit(s[i]),
        i > 0 || (s[0] != '+' && s[0] != '-'),
    ensures
        parse_unsigned(s, max) is None,
        parse_signed(s, max) is None,
        parse_unsigned(Seq::empty(), max) is None,
        parse_signed(Seq::empty(), max) is None,
{
    if s[0] == '+' || s[0] == '-' {
        assert(s.skip(1)[i - 1] == s[i]);
        assert(!all_digits(s.skip(1)));
    }
    assert(!all_digits(s));
}

/// Sixteen digits, the letters among them in upper case, write numbers in hexadecimal.
pub proof fn law_hex_adds_digits(n: nat, width: nat, d: nat)
    requires
        d < 16,
    ensures
        hex_char(d) == "0123456789ABCDEF"@[d as int],
        hex(16 * n + d, width + 1) == hex(n, width).push(hex_char(d)),
        hex(n, 0).len() == 0,
{
    reveal_strlit("0123456789ABCDEF");
    assert((16 * n + d) / 16 == n && (16 * n + d) % 16 == d);
}

/// An id is written in as many digits as it takes, and in three at least.
pub proof fn law_ids_have_three_digits_or_more(n: nat)
    ensures
        n < 4096 ==> hex_id(n) == "0x"@ + hex(n, 3),
        4096 <= n < 65536 ==> hex_id(n) == "0x"@ + hex(n, 4),
        hex_width(16 * n + 15) == (if n == 0 {
            1nat
        } else {
            1 + hex_width(n)
        }),
        hex32(n) == "0x"@ + hex(n, 8),
{
    reveal_with_fuel(hex_width, 5);
    if n < 4096 {
        assert(n / 16 / 16 < 16);
    } else if n < 65536 {
        assert(1 <= n / 16 / 16 / 16 < 16);
        assert(n / 16 >= 16 && n / 16 / 16 >= 16);
    }
    assert((16 * n + 15) / 16 == n);
}

/// Lists of ids are written in decimal with a comma and a space between any two, in brackets or
/// in braces.
pub proof fn law_id_lists_are_separated(ids: Seq<u16>, id: u16)
    ensures
        id_list(seq![id]) == decimal(id as nat),
        ids.len() > 0 ==> id_list(ids.push(id)) == id_list(ids) + ", "@ + decimal(id as nat),
        bracketed(ids) == "["@ + id_list(ids) + "]"@,
        braced(ids) == "{"@ + id_list(ids) + "}"@,
{
    assert(decimals(seq![id]) =~= seq![decimal(id as nat)]);
    assert(decimals(ids.push(id)) =~= decimals(ids).push(decimal(id as nat)));
    law_joined_texts_are_separated(decimals(ids), decimal(id as nat), ", "@);
}

/// A text starts with a prefix exactly if it is the prefix with something behind it.
pub proof fn law_prefixes_stand_in_front(prefix: Seq<char>, rest: Seq<char>, s: Seq<char>)
    ensures
        has_prefix(prefix + rest, prefix),
        has_prefix(s, prefix) ==> s == prefix + s.skip(prefix.len() as int),
{
    assert((prefix + rest).take(prefix.len() as int) =~= prefix);
    if has_prefix(s, prefix) {
        assert(s =~= s.take(prefix.len() as int) + s.skip(prefix.len() as int));
    }
}

} // verus!

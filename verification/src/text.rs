//! Characters, numbers and words.
//!
//! Every message of this crate is described as a sequence of characters, so the
//! helpers that build one say exactly which characters they add.

use vstd::prelude::*;
use vstd::utf8::{char_is_scalar, encode_scalar, encode_utf8, is_ascii_chars, is_ascii_chars_encode_utf8};

verus! {

/// `String::push` appends the one character it is given.
pub assume_specification[ String::push ](s: &mut String, c: char)
    ensures
        final(s)@ == old(s)@.push(c),
;

/// `String::push_str` appends every character of `other`, in order.
pub assume_specification[ String::push_str ](s: &mut String, other: &str)
    ensures
        final(s)@ == old(s)@ + other@,
;

/// The control characters, Unicode's general category `Cc`.
pub open spec fn is_control_char(c: char) -> bool {
    (c as u32) <= 0x1f || 0x7f <= (c as u32) <= 0x9f
}

/// `char::is_control` holds of the characters in the general category `Cc`.
pub assume_specification[ char::is_control ](c: char) -> (b: bool)
    ensures
        b == is_control_char(c),
;

/// The characters with Unicode's `White_Space` property.
pub open spec fn is_space_char(c: char) -> bool {
    let u = c as u32;
    ||| 0x09 <= u <= 0x0d
    ||| u == 0x20
    ||| u == 0x85
    ||| u == 0xa0
    ||| u == 0x1680
    ||| 0x2000 <= u <= 0x200a
    ||| u == 0x2028
    ||| u == 0x2029
    ||| u == 0x202f
    ||| u == 0x205f
    ||| u == 0x3000
}

/// `char::is_whitespace` holds of the characters with the `White_Space` property.
pub assume_specification[ char::is_whitespace ](c: char) -> (b: bool)
    ensures
        b == is_space_char(c),
;

/// The views of a list of strings.
pub open spec fn texts(list: Seq<String>) -> Seq<Seq<char>> {
    list.map_values(|s: String| s@)
}

/// The digit character for `d`.
pub open spec fn digit(d: nat) -> char {
    if d == 0 {
        '0'
    } else if d == 1 {
        '1'
    } else if d == 2 {
        '2'
    } else if d == 3 {
        '3'
    } else if d == 4 {
        '4'
    } else if d == 5 {
        '5'
    } else if d == 6 {
        '6'
    } else if d == 7 {
        '7'
    } else if d == 8 {
        '8'
    } else {
        '9'
    }
}

/// `n` in decimal, without leading zeros.
pub open spec fn decimal(n: nat) -> Seq<char>
    decreases n,
{
    if n < 10 {
        seq![digit(n)]
    } else {
        decimal(n / 10).push(digit(n % 10))
    }
}

/// `n` in decimal, with a minus sign when it is negative.
pub open spec fn signed_decimal(n: int) -> Seq<char> {
    if n < 0 {
        seq!['-'] + decimal((-n) as nat)
    } else {
        decimal(n as nat)
    }
}

fn digit_char(d: u64) -> (c: char)
    requires
        d < 10,
    ensures
        c == digit(d as nat),
{
    if d == 0 {
        '0'
    } else if d == 1 {
        '1'
    } else if d == 2 {
        '2'
    } else if d == 3 {
        '3'
    } else if d == 4 {
        '4'
    } else if d == 5 {
        '5'
    } else if d == 6 {
        '6'
    } else if d == 7 {
        '7'
    } else if d == 8 {
        '8'
    } else {
        '9'
    }
}

/// Append `n` in decimal.
pub fn push_decimal(out: &mut String, n: u64)
    ensures
        final(out)@ == old(out)@ + decimal(n as nat),
    decreases n,
{
    if n >= 10 {
        push_decimal(out, n / 10);
    }
    out.push(digit_char(n % 10));
    assert(out@ =~= old(out)@ + decimal(n as nat));
}

/// Append `n` in decimal, with its sign when it is negative.
pub fn push_signed(out: &mut String, n: i32)
    ensures
        final(out)@ == old(out)@ + signed_decimal(n as int),
{
    if n < 0 {
        out.push('-');
        let magnitude: u64 = (-(n as i64)) as u64;
        push_decimal(out, magnitude);
        assert(out@ =~= old(out)@ + signed_decimal(n as int));
    } else {
        push_decimal(out, n as u64);
    }
}

/// How many digits a number needs grows with the number.
pub proof fn lemma_decimal_len_monotone(a: nat, b: nat)
    requires
        a <= b,
    ensures
        decimal(a).len() <= decimal(b).len(),
    decreases b,
{
    if b >= 10 {
        if a >= 10 {
            lemma_decimal_len_monotone(a / 10, b / 10);
        } else {
            lemma_decimal_len_positive(b / 10);
        }
    }
}

proof fn lemma_decimal_len_positive(n: nat)
    ensures
        decimal(n).len() >= 1,
    decreases n,
{
    if n >= 10 {
        lemma_decimal_len_positive(n / 10);
    }
}

/// `parts` with `separator` between each two of them.
pub open spec fn joined(parts: Seq<Seq<char>>, separator: Seq<char>) -> Seq<char>
    decreases parts.len(),
{
    if parts.len() == 0 {
        Seq::empty()
    } else if parts.len() == 1 {
        parts[0]
    } else {
        joined(parts.drop_last(), separator) + separator + parts.last()
    }
}

/// Join `parts` with `separator` between each two of them.
pub fn join(parts: &Vec<String>, separator: &str) -> (out: String)
    ensures
        out@ == joined(texts(parts@), separator@),
{
    let mut out = String::new();
    let mut i: usize = 0;
    while i < parts.len()
        invariant
            i <= parts@.len(),
            out@ == joined(texts(parts@.take(i as int)), separator@),
        decreases parts@.len() - i,
    {
        if i > 0 {
            out.push_str(separator);
        }
        out.push_str(parts[i].as_str());
        proof {
            let shown = texts(parts@.take(i + 1));
            assert(shown.drop_last() =~= texts(parts@.take(i as int)));
            assert(shown.last() == parts@[i as int]@);
        }
        i += 1;
    }
    assert(parts@.take(parts@.len() as int) =~= parts@);
    out
}

/// The characters of `s`, one element each.
pub fn characters(s: &str) -> (out: Vec<char>)
    ensures
        out@ == s@,
{
    let mut out: Vec<char> = Vec::new();
    for c in it: s.chars()
        invariant
            it.seq() == s@,
            out@ == it.seq().take(it.index() as int),
    {
        out.push(c);
    }
    assert(s@.take(s@.len() as int) =~= s@);
    out
}

/// The string made of `chars[from..to]`.
pub fn string_of(chars: &Vec<char>, from: usize, to: usize) -> (out: String)
    requires
        from <= to <= chars@.len(),
    ensures
        out@ == chars@.subrange(from as int, to as int),
{
    let mut out = String::new();
    let mut i: usize = from;
    while i < to
        invariant
            from <= i <= to <= chars@.len(),
            out@ == chars@.subrange(from as int, i as int),
        decreases to - i,
    {
        out.push(chars[i]);
        assert(chars@.subrange(from as int, i + 1) =~= chars@.subrange(from as int, i as int).push(chars@[i as int]));
        i += 1;
    }
    out
}

/// How many bytes `text` takes in UTF-8.
pub open spec fn byte_len(text: Seq<char>) -> nat {
    encode_utf8(text).len()
}

/// How many bytes a list of texts takes in UTF-8.
pub open spec fn total_bytes(list: Seq<Seq<char>>) -> nat
    decreases list.len(),
{
    if list.len() == 0 {
        0
    } else {
        total_bytes(list.drop_last()) + byte_len(list.last())
    }
}

/// The encoding of two texts, one after the other.
pub proof fn lemma_encode_concat(a: Seq<char>, b: Seq<char>)
    ensures
        encode_utf8(a + b) == encode_utf8(a) + encode_utf8(b),
    decreases a.len(),
{
    if a.len() == 0 {
        assert(a + b =~= b);
        assert(encode_utf8(a) + encode_utf8(b) =~= encode_utf8(b));
    } else {
        let rest = a.drop_first();
        assert((a + b).drop_first() =~= rest + b);
        assert((a + b)[0] == a[0]);
        lemma_encode_concat(rest, b);
        assert(encode_utf8(a + b) =~= encode_utf8(a) + encode_utf8(b));
    }
}

/// A character takes at most four bytes.
pub proof fn lemma_byte_len_bound(text: Seq<char>)
    ensures
        byte_len(text) <= 4 * text.len(),
    decreases text.len(),
{
    if text.len() > 0 {
        lemma_byte_len_bound(text.drop_first());
        char_is_scalar(text[0]);
        assert(encode_scalar(text[0] as u32).len() <= 4);
    }
}

proof fn lemma_decimal_is_ascii(n: nat)
    ensures
        is_ascii_chars(decimal(n)),
    decreases n,
{
    if n >= 10 {
        lemma_decimal_is_ascii(n / 10);
    }
    assert forall|i: int| 0 <= i < decimal(n).len() implies '\0' <= #[trigger] decimal(n)[i]
        <= '\u{7f}' by {
        if n >= 10 && i < decimal(n).len() - 1 {
            assert(decimal(n)[i] == decimal(n / 10)[i]);
        } else {
            assert(decimal(n)[i] == digit(n % 10));
        }
    }
}

/// A number takes as many bytes as it has digits.
pub proof fn lemma_decimal_bytes(n: nat)
    ensures
        byte_len(decimal(n)) == decimal(n).len(),
{
    lemma_decimal_is_ascii(n);
    is_ascii_chars_encode_utf8(decimal(n));
}

spec fn ten_to(k: nat) -> nat
    decreases k,
{
    if k == 0 {
        1
    } else {
        10 * ten_to((k - 1) as nat)
    }
}

proof fn lemma_decimal_len_below(n: nat, k: nat)
    requires
        n < ten_to(k),
        k > 0,
    ensures
        decimal(n).len() <= k,
    decreases k,
{
    if n >= 10 {
        assert(ten_to(1) == 10) by {
            reveal_with_fuel(ten_to, 2);
        }
        lemma_decimal_len_below(n / 10, (k - 1) as nat);
    }
}

/// A machine number has at most twenty digits.
pub proof fn lemma_decimal_len_bound(n: nat)
    requires
        n <= u64::MAX,
    ensures
        decimal(n).len() <= 20,
{
    reveal_with_fuel(ten_to, 21);
    assert(ten_to(20) > u64::MAX);
    lemma_decimal_len_below(n, 20);
}

/// `text` without the white space at its front.
pub open spec fn trimmed_front(text: Seq<char>) -> Seq<char>
    decreases text.len(),
{
    if text.len() > 0 && is_space_char(text[0]) {
        trimmed_front(text.skip(1))
    } else {
        text
    }
}

/// `text` without the white space at its end.
pub open spec fn trimmed_end(text: Seq<char>) -> Seq<char>
    decreases text.len(),
{
    if text.len() > 0 && is_space_char(text.last()) {
        trimmed_end(text.drop_last())
    } else {
        text
    }
}

/// `text` without the white space around it.
pub open spec fn trimmed(text: Seq<char>) -> Seq<char> {
    trimmed_end(trimmed_front(text))
}

/// `text` without the white space around it.
pub fn trim(text: &str) -> (r: String)
    ensures
        r@ == trimmed(text@),
{
    let chars = characters(text);
    let mut from: usize = 0;
    assert(chars@.skip(0) =~= chars@);
    while from < chars.len() && chars[from].is_whitespace()
        invariant
            from <= chars@.len(),
            trimmed_front(chars@.skip(from as int)) == trimmed_front(chars@),
        decreases chars@.len() - from,
    {
        assert(chars@.skip(from as int).skip(1) =~= chars@.skip(from + 1));
        from += 1;
    }
    let ghost rest = chars@.skip(from as int);
    assert(trimmed_front(chars@) == rest);
    let mut to: usize = chars.len();
    assert(chars@.subrange(from as int, to as int) =~= rest);
    while to > from && chars[to - 1].is_whitespace()
        invariant
            from <= to <= chars@.len(),
            trimmed_end(chars@.subrange(from as int, to as int)) == trimmed_end(rest),
        decreases to,
    {
        assert(chars@.subrange(from as int, to as int).drop_last() =~= chars@.subrange(
            from as int,
            to - 1,
        ));
        to -= 1;
    }
    string_of(&chars, from, to)
}

/// An ASCII letter in lower case; any other character as it is.
pub open spec fn ascii_lower(c: char) -> char {
    if 'A' <= c <= 'Z' {
        ((c as u8) + 32) as char
    } else {
        c
    }
}

/// `a` and `b` differ in the case of ASCII letters at most.
pub open spec fn same_ignoring_case(a: Seq<char>, b: Seq<char>) -> bool {
    a.map_values(|c: char| ascii_lower(c)) == b.map_values(|c: char| ascii_lower(c))
}

fn lower(c: char) -> (r: char)
    ensures
        r == ascii_lower(c),
{
    if 'A' <= c && c <= 'Z' {
        ((c as u8) + 32) as char
    } else {
        c
    }
}

/// Whether `a` and `b` differ in the case of ASCII letters at most.
pub fn eq_ignore_ascii_case(a: &str, b: &str) -> (r: bool)
    ensures
        r == same_ignoring_case(a@, b@),
{
    let x = characters(a);
    let y = characters(b);
    let ghost p = a@.map_values(|c: char| ascii_lower(c));
    let ghost q = b@.map_values(|c: char| ascii_lower(c));
    if x.len() != y.len() {
        assert(p.len() != q.len());
        return false;
    }
    let mut i: usize = 0;
    while i < x.len()
        invariant
            i <= x@.len() == y@.len(),
            x@ == a@,
            y@ == b@,
            p == a@.map_values(|c: char| ascii_lower(c)),
            q == b@.map_values(|c: char| ascii_lower(c)),
            forall|j: int| 0 <= j < i ==> p[j] == q[j],
        decreases x@.len() - i,
    {
        assert(p[i as int] == ascii_lower(x@[i as int]) && q[i as int] == ascii_lower(
            y@[i as int],
        ));
        if lower(x[i]) != lower(y[i]) {
            return false;
        }
        i += 1;
    }
    assert(p =~= q);
    true
}

/// The value of an ASCII digit.
pub open spec fn digit_value(c: char) -> nat {
    (c as nat - '0' as nat) as nat
}

/// Every character is an ASCII digit.
pub open spec fn all_digits(text: Seq<char>) -> bool {
    forall|i: int| 0 <= i < text.len() ==> '0' <= #[trigger] text[i] <= '9'
}

/// The number that `text`, which is made of digits, is in decimal.
pub open spec fn decimal_value(text: Seq<char>) -> nat
    decreases text.len(),
{
    if text.len() == 0 {
        0
    } else {
        10 * decimal_value(text.drop_last()) + digit_value(text.last())
    }
}

/// `text` without a plus sign in front.
pub open spec fn unsigned_part(text: Seq<char>) -> Seq<char> {
    if text.len() > 0 && text[0] == '+' {
        text.skip(1)
    } else {
        text
    }
}

/// The number that `text` names: digits, at least one, behind an optional plus
/// sign, of a value that fits.
pub open spec fn parsed_number(text: Seq<char>) -> Option<u64> {
    let digits = unsigned_part(text);
    if digits.len() > 0 && all_digits(digits) && decimal_value(digits) <= u64::MAX {
        Some(decimal_value(digits) as u64)
    } else {
        None
    }
}

proof fn lemma_decimal_value_grows(text: Seq<char>, i: int)
    requires
        0 <= i <= text.len(),
    ensures
        decimal_value(text.take(i)) <= decimal_value(text),
    decreases text.len(),
{
    if i < text.len() {
        assert(text.drop_last().take(i) =~= text.take(i));
        lemma_decimal_value_grows(text.drop_last(), i);
    } else {
        assert(text.take(i) =~= text);
    }
}

/// The number that `text` names, if it names one that fits.
pub fn parse_number(text: &str) -> (r: Option<u64>)
    ensures
        r == parsed_number(text@),
{
    let chars = characters(text);
    let start: usize = if chars.len() > 0 && chars[0] == '+' {
        1
    } else {
        0
    };
    let ghost digits = unsigned_part(text@);
    assert(digits =~= chars@.skip(start as int));
    if start == chars.len() {
        return None;
    }
    let mut value: u64 = 0;
    let mut i: usize = start;
    assert(digits.take(0) =~= Seq::<char>::empty());
    while i < chars.len()
        invariant
            start <= i <= chars@.len(),
            chars@ == text@,
            digits == unsigned_part(text@),
            digits == chars@.skip(start as int),
            start < chars@.len(),
            value == decimal_value(digits.take(i - start)),
            forall|j: int| 0 <= j < i - start ==> '0' <= #[trigger] digits[j] <= '9',
        decreases chars@.len() - i,
    {
        let c = chars[i];
        assert(digits[i - start] == c);
        if !('0' <= c && c <= '9') {
            assert(!all_digits(digits));
            return None;
        }
        let d: u64 = (c as u64) - ('0' as u64);
        proof {
            let shown = digits.take(i - start + 1);
            assert(shown.drop_last() =~= digits.take(i - start));
            assert(decimal_value(shown) == 10 * value + d);
            lemma_decimal_value_grows(digits, i - start + 1);
        }
        if value > (u64::MAX - d) / 10 {
            return None;
        }
        value = value * 10 + d;
        i += 1;
    }
    assert(digits.take(digits.len() as int) =~= digits);
    Some(value)
}

/// The hexadecimal digit for `d`, in lower case.
pub open spec fn hex_digit(d: nat) -> char {
    if d < 10 {
        digit(d)
    } else if d == 10 {
        'a'
    } else if d == 11 {
        'b'
    } else if d == 12 {
        'c'
    } else if d == 13 {
        'd'
    } else if d == 14 {
        'e'
    } else {
        'f'
    }
}

/// `bytes` in hexadecimal, two digits each, in lower case.
pub open spec fn hex_text(bytes: Seq<u8>) -> Seq<char>
    decreases bytes.len(),
{
    if bytes.len() == 0 {
        Seq::empty()
    } else {
        hex_text(bytes.drop_last()).push(hex_digit((bytes.last() / 16) as nat)).push(
            hex_digit((bytes.last() % 16) as nat),
        )
    }
}

fn hex_char(d: u8) -> (c: char)
    requires
        d < 16,
    ensures
        c == hex_digit(d as nat),
{
    if d < 10 {
        digit_char(d as u64)
    } else if d == 10 {
        'a'
    } else if d == 11 {
        'b'
    } else if d == 12 {
        'c'
    } else if d == 13 {
        'd'
    } else if d == 14 {
        'e'
    } else {
        'f'
    }
}

/// `bytes` in hexadecimal, two digits each, in lower case.
pub fn to_hex(bytes: &[u8]) -> (r: String)
    ensures
        r@ == hex_text(bytes@),
{
    let mut r = String::new();
    let mut i: usize = 0;
    while i < bytes.len()
        invariant
            i <= bytes@.len(),
            r@ == hex_text(bytes@.take(i as int)),
        decreases bytes@.len() - i,
    {
        r.push(hex_char(bytes[i] / 16));
        r.push(hex_char(bytes[i] % 16));
        assert(bytes@.take(i + 1).drop_last() =~= bytes@.take(i as int));
        i += 1;
    }
    assert(bytes@.take(bytes@.len() as int) =~= bytes@);
    r
}

/// Where the word that holds position `i` ends: at the next white space, or at the
/// end.
pub open spec fn word_end(text: Seq<char>, i: int) -> int
    decreases text.len() - i,
{
    if i < 0 || i >= text.len() || is_space_char(text[i]) {
        i
    } else {
        word_end(text, i + 1)
    }
}

/// The words of `text` from position `i` on: the stretches between white space.
pub open spec fn words_from(text: Seq<char>, i: int) -> Seq<Seq<char>>
    decreases text.len() - i,
    when 0 <= i
    via words_from_decreases
{
    if i >= text.len() {
        Seq::empty()
    } else if is_space_char(text[i]) {
        words_from(text, i + 1)
    } else {
        let end = word_end(text, i);
        seq![text.subrange(i, end)] + words_from(text, end)
    }
}

#[via_fn]
proof fn words_from_decreases(text: Seq<char>, i: int) {
    if i < text.len() && !is_space_char(text[i]) {
        lemma_word_end(text, i + 1);
    }
}

proof fn lemma_word_end(text: Seq<char>, i: int)
    requires
        0 <= i <= text.len(),
    ensures
        i <= word_end(text, i) <= text.len(),
    decreases text.len() - i,
{
    if i < text.len() && !is_space_char(text[i]) {
        lemma_word_end(text, i + 1);
    }
}

/// The words of `text`.
pub fn split_words(text: &str) -> (r: Vec<String>)
    ensures
        texts(r@) == words_from(text@, 0),
{
    let chars = characters(text);
    let mut r: Vec<String> = Vec::new();
    let mut i: usize = 0;
    assert(texts(r@) + words_from(chars@, 0) =~= words_from(chars@, 0));
    while i < chars.len()
        invariant
            i <= chars@.len(),
            texts(r@) + words_from(chars@, i as int) == words_from(chars@, 0),
        decreases chars@.len() - i,
    {
        if chars[i].is_whitespace() {
            i += 1;
        } else {
            let ghost before = texts(r@);
            let mut end: usize = i + 1;
            while end < chars.len() && !chars[end].is_whitespace()
                invariant
                    i < end <= chars@.len(),
                    word_end(chars@, i as int) == word_end(chars@, end as int),
                decreases chars@.len() - end,
            {
                end += 1;
            }
            r.push(string_of(&chars, i, end));
            proof {
                let word = chars@.subrange(i as int, end as int);
                assert(texts(r@) =~= before.push(word));
                assert(texts(r@) + words_from(chars@, end as int) =~= before + words_from(
                    chars@,
                    i as int,
                ));
            }
            i = end;
        }
    }
    assert(texts(r@) + words_from(chars@, i as int) =~= texts(r@));
    r
}

/// `text` without the white space at its end.
pub fn trim_end(text: &str) -> (r: String)
    ensures
        r@ == trimmed_end(text@),
{
    let chars = characters(text);
    let mut to: usize = chars.len();
    assert(chars@.subrange(0, to as int) =~= chars@);
    while to > 0 && chars[to - 1].is_whitespace()
        invariant
            to <= chars@.len(),
            trimmed_end(chars@.subrange(0, to as int)) == trimmed_end(chars@),
        decreases to,
    {
        assert(chars@.subrange(0, to as int).drop_last() =~= chars@.subrange(0, to - 1));
        to -= 1;
    }
    string_of(&chars, 0, to)
}

/// The digits are the ten characters from `0` on, in order.
pub proof fn lemma_digits(d: nat)
    requires
        d < 10,
    ensures
        digit(d) as nat == 48 + d,
        digit_value(digit(d)) == d,
{
}

/// A decimal number reads as the number it was written for: it is made of digits, each
/// worth ten times the one behind it, and starts with a zero only if it is zero.
pub proof fn lemma_decimal_reads_back(n: nat)
    ensures
        decimal(n).len() > 0,
        forall|i: int|
            0 <= i < decimal(n).len() ==> '0' <= #[trigger] decimal(n)[i] <= '9',
        decimal_value(decimal(n)) == n,
        n > 0 ==> decimal(n)[0] != '0',
    decreases n,
{
    reveal_with_fuel(decimal_value, 2);
    if n >= 10 {
        lemma_decimal_reads_back(n / 10);
        lemma_digits(n % 10);
        let rest = decimal(n / 10);
        assert(decimal(n).drop_last() =~= rest);
        assert forall|i: int| 0 <= i < decimal(n).len() implies '0' <= #[trigger] decimal(n)[i]
            <= '9' by {
            if i < rest.len() {
                assert(decimal(n)[i] == rest[i]);
            }
        }
        assert(decimal(n)[0] == rest[0]);
    } else {
        lemma_digits(n);
        assert(decimal(n).drop_last() =~= Seq::<char>::empty());
    }
}

/// A further digit makes a number ten times as much and adds its own worth.
pub proof fn lemma_digits_are_worth_their_place(text: Seq<char>, c: char)
    requires
        '0' <= c <= '9',
    ensures
        decimal_value(Seq::empty()) == 0,
        decimal_value(text.push(c)) == 10 * decimal_value(text) + (c as nat - 48),
{
    assert(text.push(c).drop_last() =~= text);
}

/// A negative number is written with a minus sign in front of what it is without it.
pub proof fn lemma_minus_sign(n: int)
    ensures
        n >= 0 ==> signed_decimal(n) == decimal(n as nat),
        n < 0 ==> signed_decimal(n).len() == decimal((-n) as nat).len() + 1 && signed_decimal(n)[0]
            == '-' && signed_decimal(n).skip(1) == decimal((-n) as nat),
{
    if n < 0 {
        assert(signed_decimal(n).skip(1) =~= decimal((-n) as nat));
    }
}

/// Two lists joined one after the other are the one joined, the separator and the other
/// joined; one part stands for itself, and no parts for nothing.
pub proof fn lemma_joining(a: Seq<Seq<char>>, b: Seq<Seq<char>>, separator: Seq<char>)
    ensures
        joined(Seq::empty(), separator) == Seq::<char>::empty(),
        a.len() == 1 ==> joined(a, separator) == a[0],
        a.len() > 0 && b.len() > 0 ==> joined(a + b, separator) == joined(a, separator) + separator
            + joined(b, separator),
    decreases b.len(),
{
    if a.len() > 0 && b.len() > 0 {
        let shorter = b.drop_last();
        assert((a + b).drop_last() =~= a + shorter);
        assert((a + b).last() == b.last());
        if b.len() == 1 {
            assert(a + shorter =~= a);
        } else {
            lemma_joining(a, shorter, separator);
        }
        assert(joined(a + b, separator) =~= joined(a, separator) + separator + joined(
            b,
            separator,
        ));
    }
}

proof fn lemma_trimmed_front(text: Seq<char>) -> (n: int)
    ensures
        0 <= n <= text.len(),
        trimmed_front(text) == text.skip(n),
        forall|j: int| 0 <= j < n ==> is_space_char(#[trigger] text[j]),
        n < text.len() ==> !is_space_char(text[n]),
    decreases text.len(),
{
    if text.len() > 0 && is_space_char(text[0]) {
        let rest = text.skip(1);
        let n = lemma_trimmed_front(rest);
        assert(rest.skip(n) =~= text.skip(n + 1));
        assert forall|j: int| 0 <= j < n + 1 implies is_space_char(#[trigger] text[j]) by {
            if j > 0 {
                assert(rest[j - 1] == text[j]);
            }
        }
        if n + 1 < text.len() {
            assert(rest[n] == text[n + 1]);
        }
        n + 1
    } else {
        assert(text.skip(0) =~= text);
        0
    }
}

/// Trimming the end takes off white space there, all of it, and nothing else.
pub proof fn lemma_trimming_the_end(text: Seq<char>)
    ensures
        ({
            let n = trimmed_end(text).len() as int;
            &&& n <= text.len()
            &&& trimmed_end(text) == text.take(n)
            &&& forall|j: int| n <= j < text.len() ==> is_space_char(#[trigger] text[j])
            &&& n > 0 ==> !is_space_char(text[n - 1])
        }),
    decreases text.len(),
{
    if text.len() > 0 && is_space_char(text.last()) {
        let rest = text.drop_last();
        lemma_trimming_the_end(rest);
        let n = trimmed_end(rest).len() as int;
        assert(rest.take(n) =~= text.take(n));
        assert forall|j: int| n <= j < text.len() implies is_space_char(#[trigger] text[j]) by {
            if j < rest.len() {
                assert(rest[j] == text[j]);
            }
        }
    } else {
        assert(text.take(text.len() as int) =~= text);
    }
}

/// Trimming takes off the white space around a text, all of it, and nothing else: what is
/// left starts at `n`.
pub proof fn lemma_trimming(text: Seq<char>) -> (n: int)
    ensures
        ({
            let end = n + trimmed(text).len();
            &&& 0 <= n <= end <= text.len()
            &&& trimmed(text) == text.subrange(n, end)
            &&& forall|j: int| 0 <= j < n ==> is_space_char(#[trigger] text[j])
            &&& forall|j: int| end <= j < text.len() ==> is_space_char(#[trigger] text[j])
            &&& n < end ==> !is_space_char(text[n]) && !is_space_char(text[end - 1])
        }),
{
    let n = lemma_trimmed_front(text);
    let rest = text.skip(n);
    lemma_trimming_the_end(rest);
    let end = n + trimmed(text).len();
    assert(trimmed(text) =~= text.subrange(n, end));
    assert forall|j: int| end <= j < text.len() implies is_space_char(#[trigger] text[j]) by {
        assert(rest[j - n] == text[j]);
    }
    if n < end {
        assert(rest[end - 1 - n] == text[end - 1]);
    }
    n
}

/// Two texts are the same but for case when they agree character by character, where a
/// capital letter agrees with its small one as well, 32 places on.
pub proof fn lemma_case_does_not_count(a: Seq<char>, b: Seq<char>)
    ensures
        same_ignoring_case(a, b) <==> a.len() == b.len() && forall|i: int|
            0 <= i < a.len() ==> {
                let (x, y) = (#[trigger] a[i] as nat, b[i] as nat);
                ||| x == y
                ||| 65 <= x <= 90 && y == x + 32
                ||| 65 <= y <= 90 && x == y + 32
            },
{
    let p = a.map_values(|c: char| ascii_lower(c));
    let q = b.map_values(|c: char| ascii_lower(c));
    if same_ignoring_case(a, b) {
        assert(p.len() == q.len());
        assert forall|i: int| 0 <= i < a.len() implies ({
            let (x, y) = (#[trigger] a[i] as nat, b[i] as nat);
            ||| x == y
            ||| 65 <= x <= 90 && y == x + 32
            ||| 65 <= y <= 90 && x == y + 32
        }) by {
            assert(p[i] == q[i]);
            lemma_lower(a[i]);
            lemma_lower(b[i]);
        }
    } else if a.len() == b.len() && forall|i: int|
        0 <= i < a.len() ==> {
            let (x, y) = (#[trigger] a[i] as nat, b[i] as nat);
            ||| x == y
            ||| 65 <= x <= 90 && y == x + 32
            ||| 65 <= y <= 90 && x == y + 32
        } {
        assert forall|i: int| 0 <= i < a.len() implies p[i] == q[i] by {
            let (x, y) = (a[i] as nat, b[i] as nat);
            lemma_lower(a[i]);
            lemma_lower(b[i]);
        }
        assert(p =~= q);
    }
}

proof fn lemma_lower(c: char)
    ensures
        65 <= c as nat <= 90 ==> ascii_lower(c) as nat == c as nat + 32,
        !(65 <= c as nat <= 90) ==> ascii_lower(c) == c,
{
}

/// A text names a number when it is digits, at least one, with at most a plus sign in
/// front, and the number fits; it is the number those digits are worth.
pub proof fn lemma_numbers_are_digits(text: Seq<char>, digits: Seq<char>)
    requires
        text == digits && !(text.len() > 0 && text[0] == '+') || text == seq!['+'] + digits,
    ensures
        parsed_number(text) is Some <==> digits.len() > 0 && (forall|i: int|
            0 <= i < digits.len() ==> '0' <= #[trigger] digits[i] <= '9') && decimal_value(digits)
            <= 0xffff_ffff_ffff_ffff,
        parsed_number(text) matches Some(n) ==> n == decimal_value(digits),
{
    if text == seq!['+'] + digits {
        assert(text.skip(1) =~= digits);
    }
    assert(unsigned_part(text) == digits);
}

/// A number that was written is read back.
pub proof fn lemma_number_reads_back(n: u64)
    ensures
        parsed_number(decimal(n as nat)) == Some(n),
{
    lemma_decimal_reads_back(n as nat);
    let text = decimal(n as nat);
    assert('0' <= text[0] <= '9');
    lemma_numbers_are_digits(text, text);
}

/// Each byte is two digits of base sixteen, the more significant first, in lower case.
pub proof fn lemma_hexadecimal(bytes: Seq<u8>)
    ensures
        hex_text(bytes).len() == 2 * bytes.len(),
        forall|i: int|
            #![trigger bytes[i]]
            0 <= i < bytes.len() ==> {
                let (high, low) = (bytes[i] / 16, bytes[i] % 16);
                &&& hex_text(bytes)[2 * i] as nat == (if high < 10 {
                    48 + high
                } else {
                    87 + high
                })
                &&& hex_text(bytes)[2 * i + 1] as nat == (if low < 10 {
                    48 + low
                } else {
                    87 + low
                })
            },
    decreases bytes.len(),
{
    if bytes.len() > 0 {
        let rest = bytes.drop_last();
        lemma_hexadecimal(rest);
        let n = rest.len() as int;
        assert forall|i: int| #![trigger bytes[i]] 0 <= i < bytes.len() implies ({
            let (high, low) = (bytes[i] / 16, bytes[i] % 16);
            &&& hex_text(bytes)[2 * i] as nat == (if high < 10 {
                48 + high
            } else {
                87 + high
            })
            &&& hex_text(bytes)[2 * i + 1] as nat == (if low < 10 {
                48 + low
            } else {
                87 + low
            })
        }) by {
            if i < n {
                assert(rest[i] == bytes[i]);
                assert(hex_text(bytes)[2 * i] == hex_text(rest)[2 * i]);
                assert(hex_text(bytes)[2 * i + 1] == hex_text(rest)[2 * i + 1]);
            } else {
                assert(bytes[i] == bytes.last());
                assert(hex_text(bytes)[2 * i] == hex_digit((bytes[i] / 16) as nat));
                assert(hex_text(bytes)[2 * i + 1] == hex_digit((bytes[i] % 16) as nat));
            }
        }
    }
}

proof fn lemma_word_end_is_first(text: Seq<char>, i: int)
    requires
        0 <= i <= text.len(),
    ensures
        i <= word_end(text, i) <= text.len(),
        forall|j: int| i <= j < word_end(text, i) ==> !is_space_char(#[trigger] text[j]),
        word_end(text, i) < text.len() ==> is_space_char(text[word_end(text, i)]),
    decreases text.len() - i,
{
    if i < text.len() && !is_space_char(text[i]) {
        lemma_word_end_is_first(text, i + 1);
    }
}

proof fn lemma_words_from(text: Seq<char>, i: int) -> (r: Seq<(int, int)>)
    requires
        0 <= i <= text.len(),
        i == 0 || i == text.len() || is_space_char(text[i]) || is_space_char(text[i - 1]),
    ensures
        r.len() == words_from(text, i).len(),
        forall|k: int|
            0 <= k < r.len() ==> {
                let (from, to) = #[trigger] r[k];
                &&& i <= from < to <= text.len()
                &&& words_from(text, i)[k] == text.subrange(from, to)
                &&& from == 0 || is_space_char(text[from - 1])
                &&& to == text.len() || is_space_char(text[to])
            },
        forall|k: int, j: int|
            0 <= k < r.len() && (#[trigger] r[k]).0 <= j < r[k].1 ==> !is_space_char(
                #[trigger] text[j],
            ),
        forall|k: int, l: int| 0 <= k < l < r.len() ==> (#[trigger] r[k]).1 < (#[trigger] r[l]).0,
        forall|j: int|
            i <= j < text.len() && !is_space_char(#[trigger] text[j]) ==> exists|k: int|
                0 <= k < r.len() && (#[trigger] r[k]).0 <= j < r[k].1,
    decreases text.len() - i,
{
    if i >= text.len() {
        Seq::empty()
    } else if is_space_char(text[i]) {
        lemma_words_from(text, i + 1)
    } else {
        lemma_word_end_is_first(text, i);
        lemma_word_end_is_first(text, i + 1);
        let end = word_end(text, i);
        let rest = lemma_words_from(text, end);
        let r = seq![(i, end)] + rest;
        assert(words_from(text, i) == seq![text.subrange(i, end)] + words_from(text, end));
        assert forall|k: int| 0 <= k < r.len() implies ({
            let (from, to) = #[trigger] r[k];
            &&& i <= from < to <= text.len()
            &&& words_from(text, i)[k] == text.subrange(from, to)
            &&& from == 0 || is_space_char(text[from - 1])
            &&& to == text.len() || is_space_char(text[to])
        }) by {
            if k > 0 {
                assert(r[k] == rest[k - 1]);
                assert(words_from(text, i)[k] == words_from(text, end)[k - 1]);
            }
        }
        assert forall|k: int, j: int|
            0 <= k < r.len() && (#[trigger] r[k]).0 <= j < r[k].1 implies !is_space_char(
            #[trigger] text[j],
        ) by {
            if k > 0 {
                assert(r[k] == rest[k - 1]);
            }
        }
        assert forall|k: int, l: int| 0 <= k < l < r.len() implies (#[trigger] r[k]).1 < (
        #[trigger] r[l]).0 by {
            assert(r[l] == rest[l - 1]);
            if k > 0 {
                assert(r[k] == rest[k - 1]);
            } else {
                if rest[l - 1].0 == end {
                    assert(rest[l - 1].0 <= end < rest[l - 1].1);
                    assert(!is_space_char(text[end]));
                }
            }
        }
        assert forall|j: int|
            i <= j < text.len() && !is_space_char(#[trigger] text[j]) implies exists|k: int|
            0 <= k < r.len() && (#[trigger] r[k]).0 <= j < r[k].1 by {
            if j < end {
                assert(r[0].0 <= j < r[0].1);
            } else {
                let k = choose|k: int|
                    0 <= k < rest.len() && (#[trigger] rest[k]).0 <= j < rest[k].1;
                assert(r[k + 1] == rest[k]);
            }
        }
        r
    }
}

/// The words of a text are its stretches without white space, whole and in order, and
/// every character that is no white space is in one; `r` says where each stands.
pub proof fn lemma_words_are_between_spaces(text: Seq<char>) -> (r: Seq<(int, int)>)
    ensures
        r.len() == words_from(text, 0).len(),
        forall|k: int|
            0 <= k < r.len() ==> {
                let (from, to) = #[trigger] r[k];
                &&& 0 <= from < to <= text.len()
                &&& words_from(text, 0)[k] == text.subrange(from, to)
                &&& from == 0 || is_space_char(text[from - 1])
                &&& to == text.len() || is_space_char(text[to])
            },
        forall|k: int, j: int|
            0 <= k < r.len() && (#[trigger] r[k]).0 <= j < r[k].1 ==> !is_space_char(
                #[trigger] text[j],
            ),
        forall|k: int, l: int| 0 <= k < l < r.len() ==> (#[trigger] r[k]).1 < (#[trigger] r[l]).0,
        forall|j: int|
            0 <= j < text.len() && !is_space_char(#[trigger] text[j]) ==> exists|k: int|
                0 <= k < r.len() && (#[trigger] r[k]).0 <= j < r[k].1,
{
    lemma_words_from(text, 0)
}

} // verus!

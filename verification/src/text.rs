//! Text as sequences of characters: comparing it, building it, and writing
//! numbers into it.
use vstd::prelude::*;
use vstd::string::{StrSliceExecFns, StringExecFns};
use vstd::slice::slice_subrange;

verus! {

broadcast use vstd::string::group_string_axioms;

/// `String::push` of std: appends one character to the end of the string.
pub assume_specification[ String::push ](text: &mut String, c: char)
    ensures
        final(text)@ == old(text)@.push(c),
;

/// The characters of `text`.
pub fn chars_of(text: &str) -> (chars: Vec<char>)
    ensures
        chars@ == text@,
{
    let mut chars: Vec<char> = Vec::new();
    for c in it: text.chars()
        invariant
            it.seq() == text@,
            chars@ == text@.take(it.index() as int),
    {
        assert(text@.take(it.index() as int).push(c) =~= text@.take(it.index() + 1));
        chars.push(c);
    }
    assert(text@.take(text@.len() as int) =~= text@);
    chars
}

/// Whether two texts are the same.
pub fn same(a: &str, b: &str) -> (equal: bool)
    ensures
        equal == (a@ == b@),
{
    let x = chars_of(a);
    let y = chars_of(b);
    same_chars(x.as_slice(), y.as_slice())
}

/// What the standard library's debug formatting makes of a text: quoted, with
/// what cannot be printed escaped.
pub uninterp spec fn debugged(text: Seq<char>) -> Seq<char>;

/// `text` in quotes, as `str`'s implementation of `core::fmt::Debug` writes it.
/// Which characters that escapes is left unsaid; the result depends on the text
/// alone.
#[verifier::external_body]
pub(crate) fn debug(text: &str) -> (quoted: String)
    ensures
        quoted@ == debugged(text@),
{
    format!("{:?}", text)
}

/// Whether `a` comes before `b` in dictionary order, from `i` on.
pub open spec fn precedes_from(a: Seq<char>, b: Seq<char>, i: int) -> bool
    decreases a.len() - i,
{
    if i < 0 || i >= b.len() {
        false
    } else if i >= a.len() {
        true
    } else if a[i] == b[i] {
        precedes_from(a, b, i + 1)
    } else {
        (a[i] as int) < (b[i] as int)
    }
}

/// Whether `a` comes before `b`, character by character.
pub open spec fn precedes(a: Seq<char>, b: Seq<char>) -> bool {
    precedes_from(a, b, 0)
}

/// Whether `a` comes before `b`, character by character.
pub fn comes_before(a: &str, b: &str) -> (before: bool)
    ensures
        before == precedes(a@, b@),
{
    let x = chars_of(a);
    let y = chars_of(b);
    let mut i: usize = 0;
    while i < x.len() && i < y.len() && x[i] == y[i]
        invariant
            x@ == a@,
            y@ == b@,
            i <= x@.len(),
            i <= y@.len(),
            precedes(a@, b@) == precedes_from(a@, b@, i as int),
        decreases x@.len() - i,
    {
        i = i + 1;
    }
    if i >= y.len() {
        false
    } else if i >= x.len() {
        true
    } else {
        x[i] < y[i]
    }
}

proof fn lemma_precedes_trans(a: Seq<char>, b: Seq<char>, c: Seq<char>, i: int)
    requires
        0 <= i,
        precedes_from(a, b, i),
        precedes_from(b, c, i),
    ensures
        precedes_from(a, c, i),
    decreases a.len() - i,
{
    if i < a.len() && a[i] == b[i] && b[i] == c[i] {
        lemma_precedes_trans(a, b, c, i + 1);
    }
}

/// Dictionary order is transitive.
pub proof fn lemma_precedes(a: Seq<char>, b: Seq<char>, c: Seq<char>)
    requires
        precedes(a, b),
        precedes(b, c),
    ensures
        precedes(a, c),
{
    lemma_precedes_trans(a, b, c, 0);
}

proof fn lemma_precedes_or(a: Seq<char>, b: Seq<char>, i: int)
    requires
        0 <= i <= a.len(),
        i <= b.len(),
        a.take(i) == b.take(i),
    ensures
        precedes_from(a, b, i) || precedes_from(b, a, i) || a == b,
        !(precedes_from(a, b, i) && precedes_from(b, a, i)),
    decreases a.len() - i,
{
    if i < a.len() && i < b.len() && a[i] == b[i] {
        assert(a.take(i + 1) =~= a.take(i).push(a[i]));
        assert(b.take(i + 1) =~= b.take(i).push(b[i]));
        lemma_precedes_or(a, b, i + 1);
    } else if i == a.len() && i == b.len() {
        assert(a =~= a.take(i));
        assert(b =~= b.take(i));
    }
}

/// Of two texts that differ, one comes before the other, and not both ways.
pub proof fn lemma_precedes_total(a: Seq<char>, b: Seq<char>)
    ensures
        precedes(a, b) || precedes(b, a) || a == b,
        !(precedes(a, b) && precedes(b, a)),
{
    assert(a.take(0) =~= b.take(0));
    lemma_precedes_or(a, b, 0);
}

/// Whether two runs of characters are the same.
pub fn same_chars(a: &[char], b: &[char]) -> (equal: bool)
    ensures
        equal == (a@ == b@),
{
    if a.len() != b.len() {
        return false;
    }
    let mut i: usize = 0;
    while i < a.len()
        invariant
            i <= a@.len(),
            a@.len() == b@.len(),
            forall|j: int| 0 <= j < i ==> a@[j] == b@[j],
        decreases a@.len() - i,
    {
        if a[i] != b[i] {
            return false;
        }
        i = i + 1;
    }
    assert(a@ =~= b@);
    true
}

/// The text made of `chars`.
pub fn string_of(chars: &[char]) -> (text: String)
    ensures
        text@ == chars@,
{
    let mut text = String::new();
    let mut i: usize = 0;
    while i < chars.len()
        invariant
            i <= chars@.len(),
            text@ == chars@.take(i as int),
        decreases chars@.len() - i,
    {
        assert(chars@.take(i as int).push(chars@[i as int]) =~= chars@.take(i + 1));
        text.push(chars[i]);
        i = i + 1;
    }
    assert(chars@.take(i as int) =~= chars@);
    text
}

/// An owned copy of `text`.
pub fn owned(text: &str) -> (copy: String)
    ensures
        copy@ == text@,
{
    String::from_str(text)
}

/// The character for a digit below 16, lower case.
pub open spec fn digit_char(digit: int) -> char {
    if digit < 10 {
        (digit + 0x30) as char
    } else {
        (digit - 10 + 0x61) as char
    }
}

/// `n` written in base `base`, without leading zeros.
pub open spec fn digits(n: nat, base: nat) -> Seq<char>
    decreases n,
{
    if base < 2 || n < base {
        seq![digit_char(n as int)]
    } else {
        proof {
            assert(n / base < n) by (nonlinear_arith)
                requires
                    n >= base >= 2,
            ;
        }
        digits(n / base, base).push(digit_char((n % base) as int))
    }
}

/// `n` in hexadecimal with capital letters, without leading zeros.
pub open spec fn capital_digits(n: nat) -> Seq<char> {
    digits(n, 16).map_values(|c: char| capital(c))
}

/// A lower-case letter as its capital.
pub open spec fn capital(c: char) -> char {
    if 'a' <= c <= 'z' {
        (c as int - 0x20) as char
    } else {
        c
    }
}

/// `n` in decimal.
pub open spec fn decimal_text(n: int) -> Seq<char> {
    if n < 0 {
        seq!['-'] + digits((-n) as nat, 10)
    } else {
        digits(n as nat, 10)
    }
}

/// `n` in hexadecimal, after `0x`.
pub open spec fn hex_text(n: int) -> Seq<char> {
    seq!['0', 'x'] + digits(n as nat, 16)
}

fn digit_of(digit: u8) -> (c: char)
    requires
        digit < 16,
    ensures
        c == digit_char(digit as int),
{
    if digit < 10 {
        (digit + 0x30u8) as char
    } else {
        (digit - 10u8 + 0x61u8) as char
    }
}

/// Appends `n` in base `base` to `text`.
pub fn push_digits(text: &mut String, n: u64, base: u64)
    requires
        2 <= base <= 16,
    ensures
        final(text)@ == old(text)@ + digits(n as nat, base as nat),
    decreases n,
{
    if n < base {
        text.push(digit_of(n as u8));
        assert(text@ =~= old(text)@ + digits(n as nat, base as nat));
    } else {
        assert(n / base < n) by (nonlinear_arith)
            requires
                n >= base >= 2,
        ;
        push_digits(text, n / base, base);
        let ghost mid = text@;
        text.push(digit_of((n % base) as u8));
        assert(text@ =~= old(text)@ + digits(n as nat, base as nat));
    }
}

/// Appends `n` in hexadecimal with capital letters.
pub fn push_capital_digits(text: &mut String, n: u64)
    ensures
        final(text)@ == old(text)@ + capital_digits(n as nat),
    decreases n,
{
    let digit: u8 = (n % 16) as u8;
    if n >= 16 {
        push_capital_digits(text, n / 16);
    }
    let c: char = if digit < 10 {
        (digit + 0x30u8) as char
    } else {
        (digit - 10u8 + 0x41u8) as char
    };
    text.push(c);
    assert(c == capital(digit_char(digit as int)));
    assert(text@ =~= old(text)@ + capital_digits(n as nat));
}

/// Appends `n` in decimal.
pub fn push_decimal(text: &mut String, n: u64)
    ensures
        final(text)@ == old(text)@ + decimal_text(n as int),
{
    push_digits(text, n, 10);
}

/// Appends `n` in decimal, with a sign where it is negative.
pub fn push_signed(text: &mut String, n: i32)
    ensures
        final(text)@ == old(text)@ + decimal_text(n as int),
{
    if n < 0 {
        text.push('-');
        push_digits(text, (-(n as i64)) as u64, 10);
        assert(text@ =~= old(text)@ + decimal_text(n as int));
    } else {
        push_digits(text, n as u64, 10);
    }
}

/// Appends `n` in hexadecimal, after `0x`.
pub fn push_hex(text: &mut String, n: u64)
    ensures
        final(text)@ == old(text)@ + hex_text(n as int),
{
    text.push('0');
    text.push('x');
    push_digits(text, n, 16);
    assert(text@ =~= old(text)@ + hex_text(n as int));
}

/// One character in UTF-16: itself, or a surrogate pair above the basic plane.
pub open spec fn utf16_of(c: char) -> Seq<u16> {
    let v = c as u32;
    if v < 0x1_0000 {
        seq![v as u16]
    } else {
        seq![
            (0xD800 + (v - 0x1_0000) / 0x400) as u16,
            (0xDC00 + (v - 0x1_0000) % 0x400) as u16,
        ]
    }
}

/// `text` in UTF-16.
pub open spec fn utf16(text: Seq<char>) -> Seq<u16>
    decreases text.len(),
{
    if text.len() == 0 {
        Seq::empty()
    } else {
        utf16(text.drop_last()) + utf16_of(text.last())
    }
}

fn push_units(units: &mut Vec<u16>, c: char)
    ensures
        final(units)@ == old(units)@ + utf16_of(c),
{
    let v: u32 = c as u32;
    assert(v <= 0x10_FFFF);
    if v < 0x1_0000 {
        units.push(v as u16);
    } else {
        let rest: u32 = v - 0x1_0000;
        units.push((0xD800 + rest / 0x400) as u16);
        units.push((0xDC00 + rest % 0x400) as u16);
    }
    assert(units@ =~= old(units)@ + utf16_of(c));
}

/// `text` in UTF-16.
pub fn utf16_units(text: &str) -> (units: Vec<u16>)
    ensures
        units@ == utf16(text@),
{
    let chars = chars_of(text);
    let mut units: Vec<u16> = Vec::new();
    let mut i: usize = 0;
    while i < chars.len()
        invariant
            i <= chars@.len(),
            units@ == utf16(chars@.take(i as int)),
        decreases chars@.len() - i,
    {
        proof {
            let next = chars@.take(i + 1);
            assert(next.drop_last() =~= chars@.take(i as int));
            assert(next.last() == chars@[i as int]);
        }
        push_units(&mut units, chars[i]);
        i = i + 1;
    }
    assert(chars@.take(i as int) =~= chars@);
    units
}

/// Whether `part` stands in `whole` at place `at`.
pub open spec fn stands_at<T>(whole: Seq<T>, part: Seq<T>, at: int) -> bool {
    0 <= at && at + part.len() <= whole.len() && whole.subrange(at, at + part.len()) == part
}

/// Whether `part` stands somewhere in `whole`.
pub open spec fn occurs<T>(whole: Seq<T>, part: Seq<T>) -> bool {
    exists|at: int| #[trigger] stands_at(whole, part, at)
}

/// Whether `part` stands in `whole` at place `at`.
pub fn chars_at(whole: &[char], part: &[char], at: usize) -> (stands: bool)
    requires
        at <= whole@.len(),
    ensures
        stands == stands_at(whole@, part@, at as int),
{
    let len: usize = whole.len();
    if len - at < part.len() {
        return false;
    }
    let mut i: usize = 0;
    while i < part.len()
        invariant
            i <= part@.len(),
            len == whole@.len(),
            at + part@.len() <= len,
            forall|j: int| 0 <= j < i ==> whole@[at + j] == part@[j],
        decreases part@.len() - i,
    {
        if whole[at + i] != part[i] {
            assert(whole@.subrange(at as int, at + part@.len())[i as int] != part@[i as int]);
            return false;
        }
        i = i + 1;
    }
    assert(whole@.subrange(at as int, at + part@.len()) =~= part@);
    true
}

/// Whether `part` stands somewhere in `whole`.
pub fn contains_text(whole: &str, part: &str) -> (contains: bool)
    ensures
        contains == occurs(whole@, part@),
{
    let hay = chars_of(whole);
    let needle = chars_of(part);
    let mut at: usize = 0;
    while at < hay.len()
        invariant
            at <= hay@.len(),
            hay@ == whole@,
            needle@ == part@,
            forall|k: int| 0 <= k < at ==> !#[trigger] stands_at(whole@, part@, k),
        decreases hay@.len() - at,
    {
        if chars_at(hay.as_slice(), needle.as_slice(), at) {
            return true;
        }
        at = at + 1;
    }
    let contains = chars_at(hay.as_slice(), needle.as_slice(), at);
    assert(forall|k: int| k > hay@.len() ==> !#[trigger] stands_at(whole@, part@, k));
    contains
}

/// Whether a character is white space, as Unicode has it.
pub open spec fn is_white(c: char) -> bool {
    let v = c as u32;
    ||| 0x09 <= v <= 0x0D
    ||| v == 0x20
    ||| v == 0x85
    ||| v == 0xA0
    ||| v == 0x1680
    ||| 0x2000 <= v <= 0x200A
    ||| v == 0x2028
    ||| v == 0x2029
    ||| v == 0x202F
    ||| v == 0x205F
    ||| v == 0x3000
}

/// Whether a character is white space, as Unicode has it.
pub fn white(c: char) -> (white: bool)
    ensures
        white == is_white(c),
{
    let v: u32 = c as u32;
    (0x09 <= v && v <= 0x0D) || v == 0x20 || v == 0x85 || v == 0xA0 || v == 0x1680 || (0x2000 <= v
        && v <= 0x200A) || v == 0x2028 || v == 0x2029 || v == 0x202F || v == 0x205F || v == 0x3000
}

/// The first place from `i` on that is not white space, or the end.
pub open spec fn past_white(text: Seq<char>, i: int) -> int
    decreases text.len() - i,
{
    if i >= text.len() || !is_white(text[i]) {
        i
    } else {
        past_white(text, i + 1)
    }
}

/// The first place from `i` on that is white space, or the end.
pub open spec fn word_end(text: Seq<char>, i: int) -> int
    decreases text.len() - i,
{
    if i >= text.len() || is_white(text[i]) {
        i
    } else {
        word_end(text, i + 1)
    }
}

/// The end of `text` without the white space behind it, but not before `i`.
pub open spec fn trimmed_end(text: Seq<char>, i: int, n: int) -> int
    decreases n - i,
{
    if n <= i {
        i
    } else if is_white(text[n - 1]) {
        trimmed_end(text, i, n - 1)
    } else {
        n
    }
}

/// The part of `text` from `i` on, without the white space around it.
pub open spec fn trimmed(text: Seq<char>, i: int) -> Seq<char> {
    let from = past_white(text, i);
    text.subrange(from, trimmed_end(text, from, text.len() as int))
}

/// The first place from `i` on that is not white space, or the end.
pub fn skip_white(text: &[char], i: usize) -> (at: usize)
    requires
        i <= text@.len(),
    ensures
        at == past_white(text@, i as int),
        i <= at <= text@.len(),
{
    let mut at: usize = i;
    while at < text.len() && white(text[at])
        invariant
            i <= at <= text@.len(),
            past_white(text@, i as int) == past_white(text@, at as int),
        decreases text@.len() - at,
    {
        at = at + 1;
    }
    at
}

/// The first place from `i` on that is white space, or the end.
pub fn skip_word(text: &[char], i: usize) -> (at: usize)
    requires
        i <= text@.len(),
    ensures
        at == word_end(text@, i as int),
        i <= at <= text@.len(),
{
    let mut at: usize = i;
    while at < text.len() && !white(text[at])
        invariant
            i <= at <= text@.len(),
            word_end(text@, i as int) == word_end(text@, at as int),
        decreases text@.len() - at,
    {
        at = at + 1;
    }
    at
}

/// The part of `text` from `i` on, without the white space around it.
pub fn trim(text: &[char], i: usize) -> (part: &[char])
    requires
        i <= text@.len(),
    ensures
        part@ == trimmed(text@, i as int),
{
    let from: usize = skip_white(text, i);
    let mut n: usize = text.len();
    while n > from && white(text[n - 1])
        invariant
            from <= n <= text@.len(),
            trimmed_end(text@, from as int, text@.len() as int) == trimmed_end(
                text@,
                from as int,
                n as int,
            ),
        decreases n,
    {
        n = n - 1;
    }
    slice_subrange(text, from, n)
}

/// The first place from `i` on where `c` stands, or the end.
pub open spec fn place_of(text: Seq<char>, c: char, i: int) -> int
    decreases text.len() - i,
{
    if i >= text.len() || text[i] == c {
        i
    } else {
        place_of(text, c, i + 1)
    }
}

/// The first place from `i` on where `c` stands, or the end.
pub fn find_char(text: &[char], c: char, i: usize) -> (at: usize)
    requires
        i <= text@.len(),
    ensures
        at == place_of(text@, c, i as int),
        i <= at <= text@.len(),
        at < text@.len() ==> text@[at as int] == c,
{
    let mut at: usize = i;
    while at < text.len() && text[at] != c
        invariant
            i <= at <= text@.len(),
            place_of(text@, c, i as int) == place_of(text@, c, at as int),
        decreases text@.len() - at,
    {
        at = at + 1;
    }
    at
}

/// Whether `text` begins with `part`.
pub open spec fn begins_with(text: Seq<char>, part: Seq<char>) -> bool {
    stands_at(text, part, 0)
}

/// Whether `text` begins with `part`.
pub fn starts_with(text: &str, part: &str) -> (starts: bool)
    ensures
        starts == begins_with(text@, part@),
{
    let whole = chars_of(text);
    let wanted = chars_of(part);
    chars_at(whole.as_slice(), wanted.as_slice(), 0)
}

/// The value of a digit in a base up to sixteen, in either case.
pub open spec fn digit_value(c: char) -> Option<int> {
    if '0' <= c <= '9' {
        Some(c as int - '0' as int)
    } else if 'a' <= c <= 'f' {
        Some(c as int - 'a' as int + 10)
    } else if 'A' <= c <= 'F' {
        Some(c as int - 'A' as int + 10)
    } else {
        None
    }
}

/// What digits in base `base` come to, if they all are.
pub open spec fn digits_value(text: Seq<char>, base: int) -> Option<int>
    decreases text.len(),
{
    if text.len() == 0 {
        Some(0)
    } else {
        match (digits_value(text.drop_last(), base), digit_value(text.last())) {
            (Some(rest), Some(digit)) => if digit < base {
                Some(rest * base + digit)
            } else {
                None
            },
            _ => None,
        }
    }
}

/// The number that `text` is in base `base`, if it is one that fits: digits,
/// after a plus sign or none.
pub open spec fn number_of(text: Seq<char>, base: int) -> Option<u64> {
    let digits = if text.len() > 0 && text[0] == '+' {
        text.skip(1)
    } else {
        text
    };
    if digits.len() == 0 {
        None
    } else {
        match digits_value(digits, base) {
            Some(value) => if value <= u64::MAX {
                Some(value as u64)
            } else {
                None
            },
            None => None,
        }
    }
}

fn digit(c: char) -> (value: Option<u64>)
    ensures
        digit_value(c) == match value {
            Some(value) => Some(value as int),
            None => None,
        },
        value matches Some(v) ==> v < 16,
{
    if '0' <= c && c <= '9' {
        Some(c as u64 - '0' as u64)
    } else if 'a' <= c && c <= 'f' {
        Some(c as u64 - 'a' as u64 + 10)
    } else if 'A' <= c && c <= 'F' {
        Some(c as u64 - 'A' as u64 + 10)
    } else {
        None
    }
}

proof fn lemma_digits_prefix(text: Seq<char>, base: int, n: int)
    requires
        0 <= n <= text.len(),
        2 <= base <= 16,
    ensures
        digits_value(text.take(n), base) is None ==> digits_value(text, base) is None,
        digits_value(text.take(n), base) matches Some(part) ==> part >= 0 && (digits_value(
            text,
            base,
        ) matches Some(whole) ==> whole >= part),
    decreases text.len() - n,
{
    if n < text.len() {
        lemma_digits_prefix(text, base, n + 1);
        assert(text.take(n + 1).drop_last() =~= text.take(n));
        lemma_digits_start(text.take(n), base);
        if digits_value(text.take(n), base) is Some {
            let part = digits_value(text.take(n), base)->0;
            assert(part * base >= part) by (nonlinear_arith)
                requires
                    part >= 0,
                    base >= 2,
            ;
        }
    } else {
        assert(text.take(n) =~= text);
        lemma_digits_start(text, base);
    }
}

proof fn lemma_digits_start(text: Seq<char>, base: int)
    requires
        2 <= base <= 16,
    ensures
        digits_value(text, base) matches Some(value) ==> value >= 0,
    decreases text.len(),
{
    if text.len() > 0 {
        lemma_digits_start(text.drop_last(), base);
        if digits_value(text.drop_last(), base) is Some {
            let rest = digits_value(text.drop_last(), base)->0;
            assert(rest * base >= 0) by (nonlinear_arith)
                requires
                    rest >= 0,
                    base >= 2,
            ;
        }
    }
}

/// The number that `text` is in base `base`, if it is one that fits.
pub fn parse_number(text: &[char], base: u64) -> (number: Option<u64>)
    requires
        2 <= base <= 16,
    ensures
        number == number_of(text@, base as int),
{
    let skip: usize = if text.len() > 0 && text[0] == '+' {
        1
    } else {
        0
    };
    let digits = slice_subrange(text, skip, text.len());
    assert(digits@ =~= if text@.len() > 0 && text@[0] == '+' {
        text@.skip(1)
    } else {
        text@
    });
    if digits.len() == 0 {
        return None;
    }
    let mut value: u64 = 0;
    let mut i: usize = 0;
    assert(digits@.take(0) =~= Seq::<char>::empty());
    while i < digits.len()
        invariant
            i <= digits@.len(),
            2 <= base <= 16,
            digits_value(digits@.take(i as int), base as int) == Some(value as int),
            number_of(text@, base as int) == (match digits_value(digits@, base as int) {
                Some(value) => if value <= u64::MAX {
                    Some(value as u64)
                } else {
                    None
                },
                None => None,
            }),
        decreases digits@.len() - i,
    {
        proof {
            assert(digits@.take(i + 1).drop_last() =~= digits@.take(i as int));
            assert(digits@.take(i + 1).last() == digits@[i as int]);
            lemma_digits_prefix(digits@, base as int, i + 1);
        }
        let next: u64 = match digit(digits[i]) {
            Some(next) => next,
            None => {
                return None;
            },
        };
        if next >= base {
            return None;
        }
        assert(value * base <= 0xffff_ffff_ffff_ffff * 16) by (nonlinear_arith)
            requires
                value <= 0xffff_ffff_ffff_ffff,
                base <= 16,
        ;
        let grown: u128 = value as u128 * base as u128;
        let total: u128 = grown + next as u128;
        if total > 0xffff_ffff_ffff_ffff {
            return None;
        }
        value = total as u64;
        i = i + 1;
    }
    assert(digits@.take(i as int) =~= digits@);
    Some(value)
}

/// A line without a carriage return behind it.
pub open spec fn chomped(line: Seq<char>) -> Seq<char> {
    if line.len() > 0 && line.last() == '\r' {
        line.drop_last()
    } else {
        line
    }
}

/// The lines of `text` from place `i` on. A line ends at a line feed, or at a
/// carriage return and a line feed; the last need not end so.
pub open spec fn lines_from(text: Seq<char>, i: int) -> Seq<Seq<char>>
    decreases text.len() - i,
{
    if i < 0 || i >= text.len() {
        Seq::empty()
    } else {
        let end = place_of(text, '\n', i);
        if end < i || end >= text.len() {
            seq![text.skip(i)]
        } else {
            seq![chomped(text.subrange(i, end))] + lines_from(text, end + 1)
        }
    }
}

/// The lines of `text`.
pub open spec fn lines_of(text: Seq<char>) -> Seq<Seq<char>> {
    lines_from(text, 0)
}

/// The texts of several runs of characters.
pub open spec fn runs(lines: Seq<Vec<char>>) -> Seq<Seq<char>> {
    lines.map_values(|line: Vec<char>| line@)
}

/// A copy of part of `text`.
pub fn copy_part(text: &[char], from: usize, to: usize) -> (part: Vec<char>)
    requires
        from <= to <= text@.len(),
    ensures
        part@ == text@.subrange(from as int, to as int),
{
    let mut part: Vec<char> = Vec::new();
    let mut i: usize = from;
    while i < to
        invariant
            from <= i <= to <= text@.len(),
            part@ == text@.subrange(from as int, i as int),
        decreases to - i,
    {
        part.push(text[i]);
        i = i + 1;
        assert(part@ =~= text@.subrange(from as int, i as int));
    }
    part
}

/// The lines of `text`.
pub fn lines(text: &[char]) -> (lines: Vec<Vec<char>>)
    ensures
        runs(lines@) == lines_of(text@),
{
    let mut lines: Vec<Vec<char>> = Vec::new();
    let mut i: usize = 0;
    assert(runs(lines@) + lines_from(text@, 0) =~= lines_of(text@));
    while i < text.len()
        invariant
            i <= text@.len(),
            runs(lines@) + lines_from(text@, i as int) == lines_of(text@),
        decreases text@.len() - i,
    {
        let ghost before = lines@;
        let ghost rest = lines_from(text@, i as int);
        let end: usize = find_char(text, '\n', i);
        if end >= text.len() {
            let line = copy_part(text, i, end);
            assert(line@ =~= text@.skip(i as int));
            lines.push(line);
            assert(runs(lines@) =~= runs(before) + rest);
            return lines;
        }
        let stop: usize = if end > i && text[end - 1] == '\r' {
            end - 1
        } else {
            end
        };
        let line = copy_part(text, i, stop);
        proof {
            let whole = text@.subrange(i as int, end as int);
            if end > i {
                assert(whole.last() == text@[end - 1]);
                assert(whole.drop_last() =~= text@.subrange(i as int, end - 1));
            }
            assert(line@ == chomped(whole));
        }
        lines.push(line);
        assert(runs(lines@) + lines_from(text@, end + 1) =~= runs(before) + rest);
        i = end + 1;
    }
    assert(lines_from(text@, i as int) =~= Seq::<Seq<char>>::empty());
    assert(runs(lines@) + Seq::<Seq<char>>::empty() =~= runs(lines@));
    lines
}

pub proof fn lemma_place_of(text: Seq<char>, c: char, i: int)
    requires
        0 <= i <= text.len(),
    ensures
        i <= place_of(text, c, i) <= text.len(),
        place_of(text, c, i) < text.len() ==> text[place_of(text, c, i)] == c,
        forall|k: int| i <= k < place_of(text, c, i) ==> text[k] != c,
    decreases text.len() - i,
{
    if i < text.len() && text[i] != c {
        lemma_place_of(text, c, i + 1);
    }
}

/// Where the first `c` stands is settled by it standing there and not before.
pub proof fn lemma_place_is(text: Seq<char>, c: char, i: int, at: int)
    requires
        0 <= i <= at <= text.len(),
        at < text.len() ==> text[at] == c,
        forall|k: int| i <= k < at ==> text[k] != c,
    ensures
        place_of(text, c, i) == at,
{
    lemma_place_of(text, c, i);
    let p = place_of(text, c, i);
    if p < at {
        assert(text[p] != c);
    }
    if at < p {
        assert(text[at] != c);
    }
}

/// A line put in front of a text is its first line, and the text's lines follow.
pub proof fn a_line_in_front(line: Seq<char>, rest: Seq<char>)
    requires
        !line.contains('\n'),
        line.len() > 0 ==> line.last() != '\r',
    ensures
        lines_of(line + seq!['\n'] + rest) == seq![line] + lines_of(rest),
{
    let text = line + seq!['\n'] + rest;
    let n = line.len() as int;
    assert forall|k: int| 0 <= k < n implies text[k] != '\n' by {
        assert(text[k] == line[k]);
        assert(line.contains(line[k]));
    }
    lemma_place_is(text, '\n', 0, n);
    assert(text.subrange(0, n) =~= line);
    lemma_lines_shift(line + seq!['\n'], rest, 0);
}

proof fn lemma_lines_shift(front: Seq<char>, rest: Seq<char>, i: int)
    requires
        0 <= i,
    ensures
        lines_from(front + rest, front.len() + i) == lines_from(rest, i),
    decreases rest.len() - i,
{
    let text = front + rest;
    let n = front.len() as int;
    if i < rest.len() {
        lemma_place_of(rest, '\n', i);
        let end = place_of(rest, '\n', i);
        assert forall|k: int| n + i <= k < n + end implies text[k] != '\n' by {
            assert(text[k] == rest[k - n]);
        }
        if end < rest.len() {
            assert(text[n + end] == rest[end]);
        }
        lemma_place_is(text, '\n', n + i, n + end);
        assert(text.skip(n + i) =~= rest.skip(i));
        if end < rest.len() {
            assert(text.subrange(n + i, n + end) =~= rest.subrange(i, end));
            lemma_lines_shift(front, rest, end + 1);
        }
    }
}

/// A number that is written reads back, in any base up to sixteen.
pub proof fn a_number_reads_back(n: u64, base: nat)
    requires
        2 <= base <= 16,
    ensures
        number_of(digits(n as nat, base), base as int) == Some(n),
{
    lemma_digits_value(n as nat, base);
    lemma_digits_first(n as nat, base);
    let text = digits(n as nat, base);
    assert(text[0] != '+');
}

proof fn lemma_digit_value(digit: int)
    requires
        0 <= digit < 16,
    ensures
        digit_value(digit_char(digit)) == Some(digit),
        digit_char(digit) != '+',
{
}

proof fn lemma_digits_first(n: nat, base: nat)
    requires
        2 <= base <= 16,
    ensures
        digits(n, base).len() > 0,
        digits(n, base)[0] != '+',
    decreases n,
{
    if n < base {
        lemma_digit_value(n as int);
    } else {
        assert(n / base < n) by (nonlinear_arith)
            requires
                n >= base >= 2,
        ;
        lemma_digits_first(n / base, base);
    }
}

proof fn lemma_digits_value(n: nat, base: nat)
    requires
        2 <= base <= 16,
    ensures
        digits_value(digits(n, base), base as int) == Some(n as int),
    decreases n,
{
    let text = digits(n, base);
    if n < base {
        lemma_digit_value(n as int);
        assert(text.drop_last() =~= Seq::<char>::empty());
        assert(text.last() == digit_char(n as int));
        assert(digits_value(text.drop_last(), base as int) == Some(0int));
        assert(0 * base as int + n == n) by (nonlinear_arith);
    } else {
        assert(n / base < n) by (nonlinear_arith)
            requires
                n >= base >= 2,
        ;
        lemma_digits_value(n / base, base);
        assert(text.drop_last() =~= digits(n / base, base));
        let r = (n % base) as int;
        assert(0 <= r < base) by (nonlinear_arith)
            requires
                r == n % base,
                base >= 2,
        ;
        lemma_digit_value(r);
        vstd::arithmetic::div_mod::lemma_fundamental_div_mod(n as int, base as int);
        let q = (n / base) as int;
        vstd::arithmetic::mul::lemma_mul_is_commutative(q, base as int);
        assert(q * (base as int) + r == n);
    }
}

} // verus!

//! Characters and their UTF-8 lengths.

use crate::text;
use vstd::prelude::*;
use vstd::string::*;
use vstd::utf8::*;

verus! {

/// Number of bytes of the UTF-8 encoding of `c`.
pub open spec fn char_len(c: char) -> int {
    if (c as u32) < 0x80 {
        1
    } else if (c as u32) < 0x800 {
        2
    } else if (c as u32) < 0x10000 {
        3
    } else {
        4
    }
}

/// Number of bytes of the UTF-8 encoding of `s`.
pub open spec fn byte_len(s: Seq<char>) -> int {
    encode_utf8(s).len() as int
}

/// The characters with the Unicode property `White_Space`.
pub open spec fn is_whitespace(c: char) -> bool {
    let u = c as u32;
    9 <= u <= 13 || u == 32 || u == 0x85 || u == 0xa0 || u == 0x1680 || 0x2000 <= u <= 0x200a || u
        == 0x2028 || u == 0x2029 || u == 0x202f || u == 0x205f || u == 0x3000
}

pub proof fn lemma_char_len(c: char)
    ensures
        encode_utf8(seq![c]).len() == char_len(c),
{
    let s = seq![c];
    assert(s.drop_first() =~= Seq::<char>::empty());
    assert(encode_utf8(s.drop_first()) =~= Seq::<u8>::empty());
    assert(encode_utf8(s) =~= encode_scalar(c as u32));
}

pub proof fn lemma_byte_len_push(s: Seq<char>, c: char)
    ensures
        byte_len(s.push(c)) == byte_len(s) + char_len(c),
{
    assert(s.push(c) =~= s + seq![c]);
    text::lemma_encode_concat(s, seq![c]);
    lemma_char_len(c);
}

pub proof fn lemma_byte_len_concat(a: Seq<char>, b: Seq<char>)
    ensures
        byte_len(a + b) == byte_len(a) + byte_len(b),
{
    text::lemma_encode_concat(a, b);
}

/// A prefix is no longer than the whole.
pub proof fn lemma_byte_len_split(s: Seq<char>, i: int)
    requires
        0 <= i <= s.len(),
    ensures
        byte_len(s) == byte_len(s.take(i)) + byte_len(s.skip(i)),
        byte_len(s.take(i)) >= 0,
        byte_len(s.skip(i)) >= 0,
{
    assert(s =~= s.take(i) + s.skip(i));
    text::lemma_encode_concat(s.take(i), s.skip(i));
}

pub proof fn lemma_byte_len_empty()
    ensures
        byte_len(Seq::empty()) == 0,
{
    assert(encode_utf8(Seq::<char>::empty()) =~= Seq::<u8>::empty());
}

/// Number of bytes of the UTF-8 encoding of `c`.
pub fn utf8_len(c: char) -> (len: usize)
    ensures
        len == char_len(c),
        1 <= len <= 4,
{
    let u: u32 = c as u32;
    if u < 0x80 {
        1
    } else if u < 0x800 {
        2
    } else if u < 0x10000 {
        3
    } else {
        4
    }
}

/// Whether `c` has the Unicode property `White_Space`.
pub fn check_whitespace(c: char) -> (whitespace: bool)
    ensures
        whitespace == is_whitespace(c),
{
    let u: u32 = c as u32;
    (9 <= u && u <= 13) || u == 32 || u == 0x85 || u == 0xa0 || u == 0x1680 || (0x2000 <= u && u
        <= 0x200a) || u == 0x2028 || u == 0x2029 || u == 0x202f || u == 0x205f || u == 0x3000
}

/// The characters of `s`.
pub fn chars_of(s: &str) -> (chars: Vec<char>)
    ensures
        chars@ == s@,
{
    let mut chars: Vec<char> = Vec::new();
    for c in it: s.chars()
        invariant
            it.seq() == s@,
            chars@ == s@.take(it.index() as int),
    {
        proof {
            assert(s@.take(it.index() as int).push(c) =~= s@.take(it.index() + 1));
        }
        chars.push(c);
    }
    assert(s@.take(s@.len() as int) =~= s@);
    chars
}

/// Calls `String::push`: the string is longer by the character.
#[verifier::external_body]
pub(crate) fn push_char(text: &mut String, c: char)
    ensures
        final(text)@ == old(text)@.push(c),
{
    text.push(c);
}

/// The string of the characters.
pub fn string_of(chars: &[char]) -> (s: String)
    ensures
        s@ == chars@,
{
    let mut s = String::new();
    let mut i: usize = 0;
    while i < chars.len()
        invariant
            i <= chars@.len(),
            s@ == chars@.take(i as int),
        decreases chars.len() - i,
    {
        proof {
            assert(chars@.take(i as int).push(chars@[i as int]) =~= chars@.take(i + 1));
        }
        push_char(&mut s, chars[i]);
        i = i + 1;
    }
    assert(chars@.take(chars@.len() as int) =~= chars@);
    s
}

/// Whether `char::is_alphanumeric` holds of `c`.
pub uninterp spec fn char_is_alphanumeric(c: char) -> bool;

/// Calls `char::is_alphanumeric`: the result is named by `char_is_alphanumeric`.
#[verifier::external_body]
pub(crate) fn check_alphanumeric(c: char) -> (alphanumeric: bool)
    ensures
        alphanumeric == char_is_alphanumeric(c),
{
    c.is_alphanumeric()
}

/// What `str::to_lowercase` makes of `s`.
pub uninterp spec fn lowercase(s: Seq<char>) -> Seq<char>;

/// Calls `str::to_lowercase`: the result is named by `lowercase`.
#[verifier::external_body]
pub(crate) fn to_lowercase(s: &str) -> (result: String)
    ensures
        result@ == lowercase(s@),
{
    s.to_lowercase()
}

/// What `str::to_uppercase` makes of `s`.
pub uninterp spec fn uppercase(s: Seq<char>) -> Seq<char>;

/// Calls `str::to_uppercase`: the result is named by `uppercase`.
#[verifier::external_body]
pub(crate) fn to_uppercase(s: &str) -> (result: String)
    ensures
        result@ == uppercase(s@),
{
    s.to_uppercase()
}

/// The characters that `char::to_uppercase` gives for `c`.
pub uninterp spec fn char_uppercase(c: char) -> Seq<char>;

/// Calls `char::to_uppercase`: what it gives is named by `char_uppercase`.
#[verifier::external_body]
pub(crate) fn to_char_uppercase(c: char) -> (result: String)
    ensures
        result@ == char_uppercase(c),
{
    c.to_uppercase().collect()
}

/// The characters that `char::to_lowercase` gives for `c`.
pub uninterp spec fn char_lowercase(c: char) -> Seq<char>;

/// Calls `char::to_lowercase`: what it gives is named by `char_lowercase`.
#[verifier::external_body]
pub(crate) fn to_char_lowercase(c: char) -> (result: String)
    ensures
        result@ == char_lowercase(c),
{
    c.to_lowercase().collect()
}

/// `c` with an ASCII capital letter made small.
pub open spec fn ascii_lower(c: char) -> char {
    if 'A' <= c && c <= 'Z' {
        ((c as u32) + 32) as char
    } else {
        c
    }
}

/// Whether two texts differ at most in the case of ASCII letters.
pub open spec fn eq_ignore_ascii_case(a: Seq<char>, b: Seq<char>) -> bool {
    a.len() == b.len() && forall|i: int|
        0 <= i < a.len() ==> ascii_lower(#[trigger] a[i]) == ascii_lower(b[i])
}

fn same_ascii_letter(a: char, b: char) -> (same: bool)
    ensures
        same == (ascii_lower(a) == ascii_lower(b)),
{
    let x: u32 = a as u32;
    let y: u32 = b as u32;
    let p: u32 = if 65 <= x && x <= 90 {
        x + 32
    } else {
        x
    };
    let q: u32 = if 65 <= y && y <= 90 {
        y + 32
    } else {
        y
    };
    p == q
}

/// Whether two texts differ at most in the case of ASCII letters.
pub fn check_eq_ignore_ascii_case(a: &str, b: &str) -> (same: bool)
    ensures
        same == eq_ignore_ascii_case(a@, b@),
{
    let left = chars_of(a);
    let right = chars_of(b);
    if left.len() != right.len() {
        return false;
    }
    let mut i: usize = 0;
    while i < left.len()
        invariant
            i <= left@.len(),
            left@ == a@,
            right@ == b@,
            left@.len() == right@.len(),
            forall|k: int| 0 <= k < i ==> ascii_lower(#[trigger] a@[k]) == ascii_lower(b@[k]),
        decreases left.len() - i,
    {
        if !same_ascii_letter(left[i], right[i]) {
            assert(ascii_lower(a@[i as int]) != ascii_lower(b@[i as int]));
            return false;
        }
        i = i + 1;
    }
    true
}

/// The characters from `from` up to `to`.
pub(crate) fn slice_chars(source: &Vec<char>, from: usize, to: usize) -> (part: Vec<char>)
    requires
        from <= to <= source@.len(),
    ensures
        part@ == source@.subrange(from as int, to as int),
{
    let mut part: Vec<char> = Vec::new();
    let mut i: usize = from;
    while i < to
        invariant
            from <= i <= to <= source@.len(),
            part@ == source@.subrange(from as int, i as int),
        decreases to - i,
    {
        part.push(source[i]);
        assert(part@ =~= source@.subrange(from as int, i + 1));
        i = i + 1;
    }
    part
}

/// Whether two texts are the same.
pub fn same_text(a: &str, b: &str) -> (same: bool)
    ensures
        same == (a@ == b@),
{
    let left = chars_of(a);
    let right = chars_of(b);
    if left.len() != right.len() {
        return false;
    }
    let mut i: usize = 0;
    while i < left.len()
        invariant
            i <= left@.len(),
            left@ == a@,
            right@ == b@,
            left@.len() == right@.len(),
            forall|k: int| 0 <= k < i ==> a@[k] == b@[k],
        decreases left.len() - i,
    {
        if left[i] != right[i] {
            return false;
        }
        i = i + 1;
    }
    assert(a@ =~= b@);
    true
}

/// Whether `char::is_uppercase` holds of `c`.
pub uninterp spec fn char_is_uppercase(c: char) -> bool;

/// Calls `char::is_uppercase`: the result is named by `char_is_uppercase`.
#[verifier::external_body]
pub(crate) fn check_uppercase(c: char) -> (result: bool)
    ensures
        result == char_is_uppercase(c),
{
    c.is_uppercase()
}

/// Whether `char::is_lowercase` holds of `c`.
pub uninterp spec fn char_is_lowercase(c: char) -> bool;

/// Calls `char::is_lowercase`: the result is named by `char_is_lowercase`.
#[verifier::external_body]
pub(crate) fn check_lowercase(c: char) -> (result: bool)
    ensures
        result == char_is_lowercase(c),
{
    c.is_lowercase()
}

/// Whether `char::is_numeric` holds of `c`.
pub uninterp spec fn char_is_numeric(c: char) -> bool;

/// Calls `char::is_numeric`: the result is named by `char_is_numeric`.
#[verifier::external_body]
pub(crate) fn check_numeric(c: char) -> (result: bool)
    ensures
        result == char_is_numeric(c),
{
    c.is_numeric()
}

/// A letter, a digit or an underscore.
pub open spec fn is_word_character(c: char) -> bool {
    c == '_' || char_is_alphanumeric(c)
}

pub fn check_word_character(c: char) -> (word: bool)
    ensures
        word == is_word_character(c),
{
    c == '_' || check_alphanumeric(c)
}

/// The character of `t` that starts at `o`.
pub open spec fn char_at(t: Seq<u8>, o: int) -> char {
    decode_utf8(t.subrange(o, text::ceil_boundary(t, o + 1)))[0]
}

/// The character of `t` that ends at `o`.
pub open spec fn char_before(t: Seq<u8>, o: int) -> char {
    decode_utf8(t.subrange(text::floor_boundary(t, o - 1), o))[0]
}

/// The first character of a part of the text between two boundaries.
fn first_char(s: &str, start: usize, end: usize) -> (c: char)
    requires
        start < end <= encode_utf8(s@).len(),
        text::is_boundary(encode_utf8(s@), start as int),
        text::is_boundary(encode_utf8(s@), end as int),
    ensures
        c == decode_utf8(encode_utf8(s@).subrange(start as int, end as int))[0],
{
    let part = text::slice_text(s, start, end);
    proof {
        encode_utf8_decode_utf8(part@);
        if part@.len() == 0 {
            assert(encode_utf8(part@) =~= Seq::<u8>::empty());
        }
    }
    part.as_str().get_char(0)
}

/// The character that starts at `offset`, and where it ends.
pub fn read_char(s: &str, offset: usize) -> (result: (char, usize))
    requires
        offset < encode_utf8(s@).len(),
        text::is_boundary(encode_utf8(s@), offset as int),
    ensures
        result.0 == char_at(encode_utf8(s@), offset as int),
        result.1 == text::ceil_boundary(encode_utf8(s@), offset + 1),
        offset < result.1 <= encode_utf8(s@).len(),
        text::is_boundary(encode_utf8(s@), result.1 as int),
{
    let ghost t = encode_utf8(s@);
    let end = next_boundary(s.as_bytes(), offset);
    proof {
        text::lemma_ceil_boundary(t, offset + 1);
    }
    (first_char(s, offset, end), end)
}

/// The least boundary after `offset`.
pub fn next_boundary(bytes: &[u8], offset: usize) -> (end: usize)
    requires
        offset < bytes@.len(),
    ensures
        end == text::ceil_boundary(bytes@, offset + 1),
        offset < end <= bytes@.len(),
{
    assert(bytes.len() == bytes@.len());
    let mut end: usize = offset + 1;
    while end < bytes.len() && bytes[end] >= 0x80 && bytes[end] < 0xc0
        invariant
            offset < end <= bytes@.len(),
            text::ceil_boundary(bytes@, end as int) == text::ceil_boundary(bytes@, offset + 1),
        decreases bytes.len() - end,
    {
        end = end + 1;
    }
    end
}

/// The greatest boundary before `offset`.
pub fn previous_boundary(bytes: &[u8], offset: usize) -> (start: usize)
    requires
        0 < offset <= bytes@.len(),
    ensures
        start == text::floor_boundary(bytes@, offset - 1),
        start < offset,
{
    let mut start: usize = offset - 1;
    while start > 0 && bytes[start] >= 0x80 && bytes[start] < 0xc0
        invariant
            start < offset <= bytes@.len(),
            text::floor_boundary(bytes@, start as int) == text::floor_boundary(
                bytes@,
                offset - 1,
            ),
        decreases start,
    {
        start = start - 1;
    }
    start
}

/// The character that ends at `offset`.
pub fn read_char_before(s: &str, offset: usize) -> (c: char)
    requires
        0 < offset <= encode_utf8(s@).len(),
        text::is_boundary(encode_utf8(s@), offset as int),
    ensures
        c == char_before(encode_utf8(s@), offset as int),
{
    let start = previous_boundary(s.as_bytes(), offset);
    proof {
        text::lemma_floor_boundary(encode_utf8(s@), offset - 1);
    }
    first_char(s, start, offset)
}

/// Where the run of word characters that ends at the boundary `o` starts.
pub open spec fn word_start(t: Seq<u8>, o: int) -> int
    decreases o,
{
    if o <= 0 || !is_word_character(char_before(t, o)) {
        o
    } else {
        let start = text::floor_boundary(t, o - 1);
        if start < 0 || start >= o {
            o
        } else {
            word_start(t, start)
        }
    }
}

/// Where the run of word characters that starts at the boundary `o` ends.
pub open spec fn word_end(t: Seq<u8>, o: int) -> int
    decreases t.len() - o,
{
    if o < 0 || o >= t.len() || !is_word_character(char_at(t, o)) {
        o
    } else {
        let end = text::ceil_boundary(t, o + 1);
        if end <= o || end > t.len() {
            o
        } else {
            word_end(t, end)
        }
    }
}

/// The word around `o`, where there is one.
pub open spec fn word_range(t: Seq<u8>, o: int) -> Option<(int, int)> {
    let at = text::floor_boundary(t, o);
    let start = word_start(t, at);
    let end = word_end(t, at);
    if o >= t.len() || start == end {
        None
    } else {
        Some((start, end))
    }
}

/// The word around `offset`, where there is one.
pub fn find_word(s: &str, offset: usize) -> (word: Option<(usize, usize)>)
    ensures
        match word {
            Some((start, end)) => word_range(encode_utf8(s@), offset as int) == Some(
                (start as int, end as int),
            ),
            None => word_range(encode_utf8(s@), offset as int) is None,
        },
        word matches Some((start, end)) ==> start < end <= encode_utf8(s@).len()
            && text::is_boundary(encode_utf8(s@), start as int) && text::is_boundary(
            encode_utf8(s@),
            end as int,
        ),
{
    let bytes = s.as_bytes();
    let ghost t = encode_utf8(s@);
    if offset >= bytes.len() {
        return None;
    }
    proof {
        text::lemma_floor_boundary(t, offset as int);
    }
    let at: usize = previous_boundary(bytes, offset + 1);
    let mut start: usize = at;
    while start > 0 && check_word_character(read_char_before(s, start))
        invariant
            t == encode_utf8(s@),
            bytes@ == t,
            start <= at < t.len(),
            text::is_boundary(t, start as int),
            word_start(t, at as int) == word_start(t, start as int),
        decreases start,
    {
        proof {
            text::lemma_floor_boundary(t, start - 1);
        }
        start = previous_boundary(bytes, start);
    }
    let mut end: usize = at;
    while end < bytes.len() && check_word_character(read_char(s, end).0)
        invariant
            t == encode_utf8(s@),
            bytes@ == t,
            at <= end <= t.len(),
            text::is_boundary(t, end as int),
            word_end(t, at as int) == word_end(t, end as int),
        decreases bytes.len() - end,
    {
        proof {
            text::lemma_ceil_boundary(t, end + 1);
        }
        end = next_boundary(bytes, end);
    }
    if start == end {
        None
    } else {
        Some((start, end))
    }
}

/// The decimal digits of `n`.
pub open spec fn decimal(n: int) -> Seq<char>
    decreases n,
{
    if n < 10 {
        seq![(n + 48) as char]
    } else {
        decimal(n / 10).push((n % 10 + 48) as char)
    }
}

fn digit_char(d: usize) -> (c: char)
    requires
        d < 10,
    ensures
        c == (d + 48) as char,
{
    (d as u8 + 48) as char
}

/// The decimal digits of `n`.
pub fn to_decimal(n: usize) -> (s: String)
    ensures
        s@ == decimal(n as int),
    decreases n,
{
    if n < 10 {
        let mut s = String::new();
        push_char(&mut s, digit_char(n));
        assert(s@ =~= decimal(n as int));
        s
    } else {
        let mut s = to_decimal(n / 10);
        push_char(&mut s, digit_char(n % 10));
        s
    }
}

/// `s`, or its first `most` characters and a mark that more follow.
pub open spec fn ellipsized(s: Seq<char>, most: int) -> Seq<char> {
    if s.len() > most {
        s.take(most).push('\u{2026}')
    } else {
        s
    }
}

/// `s`, or its first `most` characters and a mark that more follow.
pub fn ellipsize(s: &str, most: usize) -> (result: String)
    ensures
        result@ == ellipsized(s@, most as int),
{
    let chars = chars_of(s);
    if chars.len() <= most {
        return s.to_owned();
    }
    let mut result = string_of_first(&chars, most);
    push_char(&mut result, '\u{2026}');
    result
}

/// The first `n` characters.
pub fn string_of_first(chars: &Vec<char>, n: usize) -> (result: String)
    requires
        n <= chars@.len(),
    ensures
        result@ == chars@.take(n as int),
{
    let mut result = String::new();
    let mut i: usize = 0;
    assert(result@ =~= chars@.take(0));
    while i < n
        invariant
            i <= n <= chars@.len(),
            result@ == chars@.take(i as int),
        decreases n - i,
    {
        push_char(&mut result, chars[i]);
        assert(result@ =~= chars@.take(i + 1));
        i = i + 1;
    }
    result
}

} // verus!

//! Transformations of placeholders by regular expressions.

use crate::chars;
use crate::snippet;
use crate::text;
use vstd::prelude::*;
use vstd::string::*;
use vstd::utf8::*;

verus! {

pub const MAX_BACKTRACK_STEPS: usize = 250_000;

pub const MAX_COMPILED_REGEX_BYTES: usize = 2_097_152;

pub const MAX_TRANSFORM_MATCHES: usize = 10_000;

pub const MAX_TRANSFORM_OUTPUT_BYTES: usize = 4_194_304;

/// What is made of a captured group.
#[derive(Debug, PartialEq, Eq)]
pub enum CaptureOperation {
    Copy,
    Case(String),
    If(String),
    Else(String),
    IfElse { if_value: String, else_value: String },
}

/// A part of a replacement.
#[derive(Debug, PartialEq, Eq)]
pub enum FormatPart {
    Text(String),
    Capture { index: usize, operation: CaptureOperation },
}

/// An operation as plain values.
pub enum OperationModel {
    Copy,
    Case(Seq<char>),
    If(Seq<char>),
    Else(Seq<char>),
    IfElse(Seq<char>, Seq<char>),
}

/// A part of a replacement as plain values.
pub enum PartModel {
    Text(Seq<char>),
    Capture(usize, OperationModel),
}

pub open spec fn operation_model(operation: CaptureOperation) -> OperationModel {
    match operation {
        CaptureOperation::Copy => OperationModel::Copy,
        CaptureOperation::Case(case) => OperationModel::Case(case@),
        CaptureOperation::If(value) => OperationModel::If(value@),
        CaptureOperation::Else(value) => OperationModel::Else(value@),
        CaptureOperation::IfElse { if_value, else_value } => OperationModel::IfElse(
            if_value@,
            else_value@,
        ),
    }
}

pub open spec fn part_model(part: FormatPart) -> PartModel {
    match part {
        FormatPart::Text(text) => PartModel::Text(text@),
        FormatPart::Capture { index, operation } => PartModel::Capture(
            index,
            operation_model(operation),
        ),
    }
}

pub open spec fn parts_model(parts: Seq<FormatPart>) -> Seq<PartModel> {
    Seq::new(parts.len(), |i: int| part_model(parts[i]))
}

/// The number that the digits write, or the greatest there is.
pub open spec fn bounded_number(src: Seq<char>, from: int, to: int) -> usize {
    if snippet::number(src, from, to) <= usize::MAX {
        snippet::number(src, from, to) as usize
    } else {
        usize::MAX
    }
}

/// Where the body of an expression in braces ends: at the first unescaped `}`.
pub open spec fn body_end(src: Seq<char>, from: int, escaped: bool) -> Option<int>
    decreases src.len() - from,
{
    if from < 0 || from >= src.len() {
        None
    } else if escaped {
        body_end(src, from + 1, false)
    } else if src[from] == '\\' {
        body_end(src, from + 1, true)
    } else if src[from] == '}' {
        Some(from)
    } else {
        body_end(src, from + 1, false)
    }
}

/// The first unescaped colon.
pub open spec fn colon_at(src: Seq<char>, from: int, escaped: bool) -> Option<int>
    decreases src.len() - from,
{
    if from < 0 || from >= src.len() {
        None
    } else if escaped {
        colon_at(src, from + 1, false)
    } else if src[from] == '\\' {
        colon_at(src, from + 1, true)
    } else if src[from] == ':' {
        Some(from)
    } else {
        colon_at(src, from + 1, false)
    }
}

/// Whether a backslash in front of the character goes in a value.
pub open spec fn is_escapable(c: char) -> bool {
    c == '\\' || c == '$' || c == '}' || c == '/' || c == ':'
}

/// The value without its escapes, from `from` on.
pub open spec fn unescaped(src: Seq<char>, from: int) -> Seq<char>
    decreases src.len() - from,
{
    if from < 0 || from >= src.len() {
        Seq::empty()
    } else if src[from] != '\\' {
        seq![src[from]] + unescaped(src, from + 1)
    } else if from + 1 >= src.len() {
        seq!['\\']
    } else if is_escapable(src[from + 1]) {
        seq![src[from + 1]] + unescaped(src, from + 2)
    } else {
        seq!['\\', src[from + 1]] + unescaped(src, from + 2)
    }
}

/// What the body of an expression in braces says.
pub open spec fn complex_capture(body: Seq<char>) -> Option<PartModel> {
    let d = snippet::digits_end(body, 0);
    let index = bounded_number(body, 0, d);
    if d <= 0 {
        None
    } else if d >= body.len() {
        Some(PartModel::Capture(index, OperationModel::Copy))
    } else if body[d] != ':' {
        None
    } else {
        let rest = body.skip(d + 1);
        if rest.len() > 0 && rest[0] == '/' {
            Some(PartModel::Capture(index, OperationModel::Case(rest.skip(1))))
        } else if rest.len() > 0 && rest[0] == '+' {
            Some(PartModel::Capture(index, OperationModel::If(unescaped(rest.skip(1), 0))))
        } else if rest.len() > 0 && rest[0] == '-' {
            Some(PartModel::Capture(index, OperationModel::Else(unescaped(rest.skip(1), 0))))
        } else if rest.len() > 0 && rest[0] == '?' {
            let conditional = rest.skip(1);
            match colon_at(conditional, 0, false) {
                Some(split) => Some(
                    PartModel::Capture(
                        index,
                        OperationModel::IfElse(
                            unescaped(conditional.take(split), 0),
                            unescaped(conditional.skip(split + 1), 0),
                        ),
                    ),
                ),
                None => None,
            }
        } else {
            Some(PartModel::Capture(index, OperationModel::Else(unescaped(rest, 0))))
        }
    }
}

/// The text read so far as a part, where there is any.
pub open spec fn flushed(parts: Seq<PartModel>, text: Seq<char>) -> Seq<PartModel> {
    if text.len() == 0 {
        parts
    } else {
        parts.push(PartModel::Text(text))
    }
}

/// The expression that a dollar sign at `at` starts, and where it ends.
pub open spec fn expression_at(src: Seq<char>, at: int) -> Option<(PartModel, int)> {
    let d = snippet::digits_end(src, at + 1);
    if d > at + 1 {
        Some(
            (PartModel::Capture(bounded_number(src, at + 1, d), OperationModel::Copy), d),
        )
    } else if at + 1 < src.len() && src[at + 1] == '{' {
        match body_end(src, at + 2, false) {
            Some(end) => match complex_capture(src.subrange(at + 2, end)) {
                Some(part) => Some((part, end + 1)),
                None => None,
            },
            None => None,
        }
    } else {
        None
    }
}

/// The parts of a replacement from `from` on, after what has been read.
pub open spec fn format_from(
    src: Seq<char>,
    from: int,
    parts: Seq<PartModel>,
    text: Seq<char>,
) -> Seq<PartModel>
    decreases src.len() - from,
{
    if from < 0 || from >= src.len() {
        flushed(parts, text)
    } else if src[from] == '\\' {
        if from + 1 < src.len() && is_escapable(src[from + 1]) && src[from + 1] != ':' {
            format_from(src, from + 2, parts, text.push(src[from + 1]))
        } else {
            format_from(src, from + 1, parts, text.push('\\'))
        }
    } else if src[from] != '$' {
        format_from(src, from + 1, parts, text.push(src[from]))
    } else {
        match expression_at(src, from) {
            Some((part, end)) => if end <= from || end > src.len() {
                flushed(parts, text)
            } else {
                format_from(src, end, flushed(parts, text).push(part), Seq::empty())
            },
            None => format_from(src, from + 1, parts, text.push('$')),
        }
    }
}

proof fn lemma_number(src: Seq<char>, from: int, to: int)
    requires
        0 <= from <= to <= src.len(),
        forall|i: int| from <= i < to ==> snippet::is_digit(#[trigger] src[i]),
    ensures
        0 <= snippet::number(src, from, to),
        to > from ==> snippet::number(src, from, to) >= snippet::number(src, from, to - 1),
    decreases to - from,
{
    if to > from {
        assert(snippet::is_digit(src[to - 1]));
        lemma_number(src, from, to - 1);
    }
}

/// The number at `from` and where its digits end, where there are any.
fn parse_decimal(src: &Vec<char>, from: usize) -> (result: Option<(usize, usize)>)
    requires
        from <= src@.len(),
    ensures
        ({
            let d = snippet::digits_end(src@, from as int);
            match result {
                Some((value, end)) => end == d && end > from && end <= src@.len() && value
                    == bounded_number(src@, from as int, d),
                None => d == from,
            }
        }),
{
    let ghost s = src@;
    let mut value: usize = 0;
    let mut end: usize = from;
    proof {
        snippet::lemma_digits_end(s, from as int);
    }
    while end < src.len() && '0' <= src[end] && src[end] <= '9'
        invariant
            from <= end <= src@.len(),
            s == src@,
            snippet::digits_end(s, from as int) == snippet::digits_end(s, end as int),
            forall|i: int| from <= i < end ==> snippet::is_digit(#[trigger] s[i]),
            value == bounded_number(s, from as int, end as int),
        decreases src.len() - end,
    {
        let digit: usize = (src[end] as u32 - '0' as u32) as usize;
        proof {
            lemma_number(s, from as int, end as int);
            assert(snippet::number(s, from as int, end + 1) == 10 * snippet::number(
                s,
                from as int,
                end as int,
            ) + digit);
        }
        value = match value.checked_mul(10) {
            Some(tens) => match tens.checked_add(digit) {
                Some(sum) => sum,
                None => usize::MAX,
            },
            None => usize::MAX,
        };
        end = end + 1;
    }
    if end > from {
        Some((value, end))
    } else {
        None
    }
}

fn find_body_end(src: &Vec<char>, from: usize) -> (end: Option<usize>)
    requires
        from <= src@.len(),
    ensures
        match end {
            Some(end) => body_end(src@, from as int, false) == Some(end as int) && from <= end
                < src@.len(),
            None => body_end(src@, from as int, false) is None,
        },
{
    let mut escaped = false;
    let mut i: usize = from;
    while i < src.len()
        invariant
            from <= i <= src@.len(),
            body_end(src@, from as int, false) == body_end(src@, i as int, escaped),
        decreases src.len() - i,
    {
        if escaped {
            escaped = false;
        } else if src[i] == '\\' {
            escaped = true;
        } else if src[i] == '}' {
            return Some(i);
        }
        i = i + 1;
    }
    None
}

fn find_colon(src: &Vec<char>) -> (at: Option<usize>)
    ensures
        match at {
            Some(at) => colon_at(src@, 0, false) == Some(at as int) && at < src@.len(),
            None => colon_at(src@, 0, false) is None,
        },
{
    let mut escaped = false;
    let mut i: usize = 0;
    while i < src.len()
        invariant
            i <= src@.len(),
            colon_at(src@, 0, false) == colon_at(src@, i as int, escaped),
        decreases src.len() - i,
    {
        if escaped {
            escaped = false;
        } else if src[i] == '\\' {
            escaped = true;
        } else if src[i] == ':' {
            return Some(i);
        }
        i = i + 1;
    }
    None
}

fn check_escapable(c: char) -> (escapable: bool)
    ensures
        escapable == is_escapable(c),
{
    c == '\\' || c == '$' || c == '}' || c == '/' || c == ':'
}

/// The value without its escapes.
fn unescape_format_value(src: &Vec<char>) -> (value: String)
    ensures
        value@ == unescaped(src@, 0),
{
    let mut value = String::new();
    let mut i: usize = 0;
    assert(value@ + unescaped(src@, 0) =~= unescaped(src@, 0));
    while i < src.len()
        invariant
            i <= src@.len(),
            value@ + unescaped(src@, i as int) == unescaped(src@, 0),
        decreases src.len() - i,
    {
        let ghost before = value@;
        let c = src[i];
        if c != '\\' {
            chars::push_char(&mut value, c);
            i = i + 1;
            assert(value@ + unescaped(src@, i as int) =~= before + (seq![c] + unescaped(
                src@,
                i as int,
            )));
        } else if i + 1 >= src.len() {
            chars::push_char(&mut value, '\\');
            i = i + 1;
            assert(value@ + unescaped(src@, i as int) =~= before + seq!['\\']);
        } else {
            let next = src[i + 1];
            if !check_escapable(next) {
                chars::push_char(&mut value, '\\');
            }
            chars::push_char(&mut value, next);
            i = i + 2;
            proof {
                if is_escapable(next) {
                    assert(value@ + unescaped(src@, i as int) =~= before + (seq![next] + unescaped(
                        src@,
                        i as int,
                    )));
                } else {
                    assert(value@ + unescaped(src@, i as int) =~= before + (seq!['\\', next]
                        + unescaped(src@, i as int)));
                }
            }
        }
    }
    assert(value@ + Seq::<char>::empty() =~= value@);
    value
}

/// What the body of an expression in braces says.
fn parse_complex_capture(body: &Vec<char>) -> (part: Option<FormatPart>)
    ensures
        match part {
            Some(part) => complex_capture(body@) == Some(part_model(part)),
            None => complex_capture(body@) is None,
        },
{
    let (index, at): (usize, usize) = match parse_decimal(body, 0) {
        Some(found) => found,
        None => {
            return None;
        },
    };
    if at >= body.len() {
        return Some(FormatPart::Capture { index, operation: CaptureOperation::Copy });
    }
    if body[at] != ':' {
        return None;
    }
    let rest = chars::slice_chars(body, at + 1, body.len());
    assert(rest@ =~= body@.skip(at + 1));
    let operation = if rest.len() > 0 && (rest[0] == '/' || rest[0] == '+' || rest[0] == '-'
        || rest[0] == '?') {
        let value = chars::slice_chars(&rest, 1, rest.len());
        assert(value@ =~= rest@.skip(1));
        if rest[0] == '/' {
            CaptureOperation::Case(chars::string_of(value.as_slice()))
        } else if rest[0] == '+' {
            CaptureOperation::If(unescape_format_value(&value))
        } else if rest[0] == '-' {
            CaptureOperation::Else(unescape_format_value(&value))
        } else {
            let split: usize = match find_colon(&value) {
                Some(split) => split,
                None => {
                    return None;
                },
            };
            let yes = chars::slice_chars(&value, 0, split);
            let no = chars::slice_chars(&value, split + 1, value.len());
            assert(yes@ =~= value@.take(split as int));
            assert(no@ =~= value@.skip(split + 1));
            CaptureOperation::IfElse {
                if_value: unescape_format_value(&yes),
                else_value: unescape_format_value(&no),
            }
        }
    } else {
        CaptureOperation::Else(unescape_format_value(&rest))
    };
    Some(FormatPart::Capture { index, operation })
}

fn parse_expression(src: &Vec<char>, at: usize) -> (found: Option<(FormatPart, usize)>)
    requires
        at < src@.len(),
    ensures
        match found {
            Some((part, end)) => expression_at(src@, at as int) == Some(
                (part_model(part), end as int),
            ) && at < end <= src@.len(),
            None => expression_at(src@, at as int) is None,
        },
{
    assert(src.len() == src@.len());
    if let Some((index, end)) = parse_decimal(src, at + 1) {
        return Some(
            (FormatPart::Capture { index, operation: CaptureOperation::Copy }, end),
        );
    }
    if at + 1 < src.len() && src[at + 1] == '{' {
        if let Some(end) = find_body_end(src, at + 2) {
            let body = chars::slice_chars(src, at + 2, end);
            if let Some(part) = parse_complex_capture(&body) {
                return Some((part, end + 1));
            }
        }
    }
    None
}

/// Reads a replacement.
pub fn parse_format(source: &str) -> (parts: Vec<FormatPart>)
    ensures
        parts_model(parts@) == format_from(source@, 0, Seq::empty(), Seq::empty()),
{
    let src = chars::chars_of(source);
    let mut parts: Vec<FormatPart> = Vec::new();
    let mut text = String::new();
    let mut at: usize = 0;
    proof {
        assert(parts_model(parts@) =~= Seq::<PartModel>::empty());
        assert(text@ =~= Seq::<char>::empty());
    }
    while at < src.len()
        invariant
            at <= src@.len(),
            src@ == source@,
            format_from(src@, at as int, parts_model(parts@), text@) == format_from(
                src@,
                0,
                Seq::empty(),
                Seq::empty(),
            ),
        decreases src.len() - at,
    {
        let c = src[at];
        if c == '\\' {
            if at + 1 < src.len() && check_escapable(src[at + 1]) && src[at + 1] != ':' {
                chars::push_char(&mut text, src[at + 1]);
                at = at + 2;
            } else {
                chars::push_char(&mut text, '\\');
                at = at + 1;
            }
        } else if c != '$' {
            chars::push_char(&mut text, c);
            at = at + 1;
        } else {
            match parse_expression(&src, at) {
                Some((part, end)) => {
                    let ghost before = parts_model(parts@);
                    let ghost held = text@;
                    flush_text(&mut parts, text);
                    text = String::new();
                    assert(text@ =~= Seq::<char>::empty());
                    let ghost flush = parts@;
                    parts.push(part);
                    assert(parts_model(parts@) =~= parts_model(flush).push(part_model(part)));
                    at = end;
                },
                None => {
                    chars::push_char(&mut text, '$');
                    at = at + 1;
                },
            }
        }
    }
    flush_text(&mut parts, text);
    parts
}

fn flush_text(parts: &mut Vec<FormatPart>, text: String)
    ensures
        parts_model(final(parts)@) == flushed(parts_model(old(parts)@), text@),
{
    let ghost before = parts@;
    let ghost held = text@;
    if chars::chars_of(text.as_str()).len() > 0 {
        parts.push(FormatPart::Text(text));
        assert(parts_model(parts@) =~= parts_model(before).push(PartModel::Text(held)));
    }
}

/// `s` with its first character made a capital.
pub open spec fn capitalized(s: Seq<char>) -> Seq<char> {
    if s.len() == 0 {
        Seq::empty()
    } else {
        chars::char_uppercase(s[0]) + s.skip(1)
    }
}

/// `s` with its first character made small.
pub open spec fn lower_first(s: Seq<char>) -> Seq<char> {
    if s.len() == 0 {
        Seq::empty()
    } else {
        chars::char_lowercase(s[0]) + s.skip(1)
    }
}

/// The runs of letters and digits; the last one starts at `from` and has been
/// read up to `to`.
pub open spec fn words_from(s: Seq<char>, from: int, to: int) -> Seq<Seq<char>>
    decreases s.len() - to,
{
    if to < 0 || to >= s.len() {
        if from < s.len() {
            seq![s.subrange(from, s.len() as int)]
        } else {
            Seq::empty()
        }
    } else if chars::char_is_alphanumeric(s[to]) {
        words_from(s, from, to + 1)
    } else if from < to {
        seq![s.subrange(from, to)] + words_from(s, to + 1, to + 1)
    } else {
        words_from(s, to + 1, to + 1)
    }
}

/// The first `n` words capitalized and put together; the first one starts
/// small in camel case.
pub open spec fn joined_words(words: Seq<Seq<char>>, camel: bool, n: int) -> Seq<char>
    decreases n,
{
    if n <= 0 {
        Seq::empty()
    } else {
        joined_words(words, camel, n - 1) + if camel && n == 1 {
            lower_first(words[n - 1])
        } else {
            capitalized(words[n - 1])
        }
    }
}

/// Where the leading characters `c` of `s` from `from` on end.
pub open spec fn leading_end(s: Seq<char>, c: char, from: int) -> int
    decreases s.len() - from,
{
    if from < 0 || from >= s.len() || s[from] != c {
        from
    } else {
        leading_end(s, c, from + 1)
    }
}

/// Where the trailing characters `c` among the first `n` of `s` start, not
/// before `least`.
pub open spec fn trailing_start(s: Seq<char>, c: char, least: int, n: int) -> int
    decreases n,
{
    if n <= least || n <= 0 || s[n - 1] != c {
        n
    } else {
        trailing_start(s, c, least, n - 1)
    }
}

/// `s` without the characters `c` at its ends.
pub open spec fn trimmed(s: Seq<char>, c: char) -> Seq<char> {
    let start = leading_end(s, c, 0);
    s.subrange(start, trailing_start(s, c, start, s.len() as int))
}

/// How far a text has been turned into snake case.
pub struct SnakeModel {
    pub output: Seq<char>,
    pub previous_was_lower: bool,
    pub pending: bool,
}

/// One more character in snake case: white space and hyphens become an
/// underscore, and so does the step from a small letter to a capital.
pub open spec fn snake_step(m: SnakeModel, c: char) -> SnakeModel {
    if chars::is_whitespace(c) || c == '-' {
        SnakeModel { pending: m.output.len() > 0, previous_was_lower: false, ..m }
    } else {
        let separated = if (m.pending || (m.previous_was_lower && chars::char_is_uppercase(c)))
            && !(m.output.len() > 0 && m.output.last() == '_') {
            m.output.push('_')
        } else {
            m.output
        };
        SnakeModel {
            output: separated + chars::char_lowercase(c),
            previous_was_lower: chars::char_is_lowercase(c),
            pending: false,
        }
    }
}

pub open spec fn snake_model(s: Seq<char>, n: int) -> SnakeModel
    decreases n,
{
    if n <= 0 {
        SnakeModel { output: Seq::empty(), previous_was_lower: false, pending: false }
    } else {
        snake_step(snake_model(s, n - 1), s[n - 1])
    }
}

/// Whether a word starts at the capital letter `i`.
pub open spec fn starts_word(s: Seq<char>, i: int) -> bool {
    chars::char_is_uppercase(s[i]) && i > 0 && (chars::char_is_lowercase(s[i - 1])
        || chars::char_is_numeric(s[i - 1]) || (chars::char_is_uppercase(s[i - 1]) && i + 1
        < s.len() && chars::char_is_lowercase(s[i + 1])))
}

/// The first `n` characters in kebab case, before hyphens at the ends go.
pub open spec fn kebab_from(s: Seq<char>, n: int) -> Seq<char>
    decreases n,
{
    if n <= 0 {
        Seq::empty()
    } else {
        let output = kebab_from(s, n - 1);
        let separable = output.len() > 0 && output.last() != '-';
        let c = s[n - 1];
        if !chars::char_is_alphanumeric(c) {
            if separable {
                output.push('-')
            } else {
                output
            }
        } else {
            (if starts_word(s, n - 1) && separable {
                output.push('-')
            } else {
                output
            }) + chars::char_lowercase(c)
        }
    }
}

/// `s` in the case that `case` names, or as it is.
pub open spec fn cased(s: Seq<char>, case: Seq<char>) -> Seq<char> {
    if case == "upcase"@ {
        chars::uppercase(s)
    } else if case == "downcase"@ {
        chars::lowercase(s)
    } else if case == "capitalize"@ {
        capitalized(s)
    } else if case == "pascalcase"@ {
        let words = words_from(s, 0, 0);
        joined_words(words, false, words.len() as int)
    } else if case == "camelcase"@ {
        let words = words_from(s, 0, 0);
        joined_words(words, true, words.len() as int)
    } else if case == "snakecase"@ {
        trimmed(snake_model(s, s.len() as int).output, '_')
    } else if case == "kebabcase"@ {
        trimmed(kebab_from(s, s.len() as int), '-')
    } else {
        s
    }
}

/// What the operation makes of a captured value.
pub open spec fn operated(s: Seq<char>, operation: OperationModel) -> Seq<char> {
    match operation {
        OperationModel::Copy => s,
        OperationModel::Case(case) => cased(s, case),
        OperationModel::If(value) => if s.len() > 0 {
            value
        } else {
            Seq::empty()
        },
        OperationModel::Else(value) => if s.len() == 0 {
            value
        } else {
            s
        },
        OperationModel::IfElse(yes, no) => if s.len() == 0 {
            no
        } else {
            yes
        },
    }
}

fn rest_of(chars: &Vec<char>) -> (rest: String)
    requires
        chars@.len() > 0,
    ensures
        rest@ == chars@.skip(1),
{
    let part = chars::slice_chars(chars, 1, chars.len());
    assert(part@ =~= chars@.skip(1));
    chars::string_of(part.as_slice())
}

fn capitalize(value: &Vec<char>) -> (result: String)
    ensures
        result@ == capitalized(value@),
{
    if value.len() == 0 {
        return String::new();
    }
    let mut result = chars::to_char_uppercase(value[0]);
    let rest = rest_of(value);
    text::push_text(&mut result, rest.as_str());
    result
}

fn make_first_lower(value: &Vec<char>) -> (result: String)
    ensures
        result@ == lower_first(value@),
{
    if value.len() == 0 {
        return String::new();
    }
    let mut result = chars::to_char_lowercase(value[0]);
    let rest = rest_of(value);
    text::push_text(&mut result, rest.as_str());
    result
}

pub open spec fn words_view(words: Seq<Vec<char>>) -> Seq<Seq<char>> {
    Seq::new(words.len(), |i: int| words[i]@)
}

fn separated_words(value: &Vec<char>) -> (words: Vec<Vec<char>>)
    ensures
        words_view(words@) == words_from(value@, 0, 0),
{
    let mut words: Vec<Vec<char>> = Vec::new();
    let mut from: usize = 0;
    let mut to: usize = 0;
    assert(words_view(words@) + words_from(value@, 0, 0) =~= words_from(value@, 0, 0));
    while to < value.len()
        invariant
            from <= to <= value@.len(),
            words_view(words@) + words_from(value@, from as int, to as int) == words_from(
                value@,
                0,
                0,
            ),
        decreases value.len() - to,
    {
        if chars::check_alphanumeric(value[to]) {
            to = to + 1;
        } else {
            if from < to {
                let ghost before = words_view(words@);
                let word = chars::slice_chars(value, from, to);
                let ghost held = word@;
                words.push(word);
                proof {
                    let rest = words_from(value@, to + 1, to + 1);
                    assert(words_view(words@) =~= before.push(held));
                    assert(before.push(held) + rest =~= before + (seq![held] + rest));
                }
            }
            to = to + 1;
            from = to;
        }
    }
    if from < value.len() {
        let ghost before = words_view(words@);
        let word = chars::slice_chars(value, from, value.len());
        let ghost held = word@;
        words.push(word);
        proof {
            assert(words_view(words@) =~= before.push(held));
            assert(before.push(held) =~= before + seq![held]);
        }
    } else {
        assert(words_view(words@) + Seq::<Seq<char>>::empty() =~= words_view(words@));
    }
    words
}

fn join_words(value: &Vec<char>, camel: bool) -> (result: String)
    ensures
        ({
            let words = words_from(value@, 0, 0);
            result@ == joined_words(words, camel, words.len() as int)
        }),
{
    let words = separated_words(value);
    let ghost wv = words_view(words@);
    let mut result = String::new();
    let mut n: usize = 0;
    assert(result@ =~= joined_words(wv, camel, 0));
    while n < words.len()
        invariant
            n <= words@.len(),
            wv == words_view(words@),
            result@ == joined_words(wv, camel, n as int),
        decreases words.len() - n,
    {
        assert(wv[n as int] == words@[n as int]@);
        let word = if camel && n == 0 {
            make_first_lower(&words[n])
        } else {
            capitalize(&words[n])
        };
        text::push_text(&mut result, word.as_str());
        n = n + 1;
    }
    result
}

proof fn lemma_leading_end(s: Seq<char>, c: char, from: int)
    requires
        0 <= from <= s.len(),
    ensures
        from <= leading_end(s, c, from) <= s.len(),
    decreases s.len() - from,
{
    if from < s.len() && s[from] == c {
        lemma_leading_end(s, c, from + 1);
    }
}

fn trim_ends(value: &Vec<char>, c: char) -> (result: String)
    ensures
        result@ == trimmed(value@, c),
{
    let mut start: usize = 0;
    while start < value.len() && value[start] == c
        invariant
            start <= value@.len(),
            leading_end(value@, c, 0) == leading_end(value@, c, start as int),
        decreases value.len() - start,
    {
        start = start + 1;
    }
    let mut end: usize = value.len();
    while end > start && value[end - 1] == c
        invariant
            start <= end <= value@.len(),
            trailing_start(value@, c, start as int, value@.len() as int) == trailing_start(
                value@,
                c,
                start as int,
                end as int,
            ),
        decreases end,
    {
        end = end - 1;
    }
    let part = chars::slice_chars(value, start, end);
    chars::string_of(part.as_slice())
}

fn push_all(output: &mut Vec<char>, more: &str)
    ensures
        final(output)@ == old(output)@ + more@,
{
    let chars = chars::chars_of(more);
    let ghost before = output@;
    let mut i: usize = 0;
    assert(before + chars@.take(0) =~= before);
    while i < chars.len()
        invariant
            i <= chars@.len(),
            chars@ == more@,
            output@ == before + chars@.take(i as int),
        decreases chars.len() - i,
    {
        output.push(chars[i]);
        assert(chars@.take(i + 1) =~= chars@.take(i as int).push(chars@[i as int]));
        assert(output@ =~= before + chars@.take(i + 1));
        i = i + 1;
    }
    assert(chars@.take(chars@.len() as int) =~= chars@);
}

fn snake_case(value: &Vec<char>) -> (result: String)
    ensures
        result@ == trimmed(snake_model(value@, value@.len() as int).output, '_'),
{
    let mut output: Vec<char> = Vec::new();
    let mut previous_was_lower = false;
    let mut pending = false;
    let mut n: usize = 0;
    assert(output@ =~= Seq::<char>::empty());
    while n < value.len()
        invariant
            n <= value@.len(),
            (SnakeModel { output: output@, previous_was_lower, pending }) == snake_model(
                value@,
                n as int,
            ),
        decreases value.len() - n,
    {
        let c = value[n];
        if chars::check_whitespace(c) || c == '-' {
            pending = output.len() > 0;
            previous_was_lower = false;
        } else {
            let split = pending || (previous_was_lower && chars::check_uppercase(c));
            if split && !(output.len() > 0 && output[output.len() - 1] == '_') {
                output.push('_');
            }
            pending = false;
            previous_was_lower = chars::check_lowercase(c);
            let lower = chars::to_char_lowercase(c);
            push_all(&mut output, lower.as_str());
        }
        n = n + 1;
    }
    trim_ends(&output, '_')
}

fn kebab_case(value: &Vec<char>) -> (result: String)
    ensures
        result@ == trimmed(kebab_from(value@, value@.len() as int), '-'),
{
    let mut output: Vec<char> = Vec::new();
    let mut n: usize = 0;
    assert(output@ =~= kebab_from(value@, 0));
    while n < value.len()
        invariant
            n <= value@.len(),
            output@ == kebab_from(value@, n as int),
        decreases value.len() - n,
    {
        let c = value[n];
        let separable = output.len() > 0 && output[output.len() - 1] != '-';
        if !chars::check_alphanumeric(c) {
            if separable {
                output.push('-');
            }
        } else {
            let boundary = chars::check_uppercase(c) && n > 0 && (chars::check_lowercase(
                value[n - 1],
            ) || chars::check_numeric(value[n - 1]) || (chars::check_uppercase(value[n - 1]) && n
                + 1 < value.len() && chars::check_lowercase(value[n + 1])));
            if boundary && separable {
                output.push('-');
            }
            let lower = chars::to_char_lowercase(c);
            push_all(&mut output, lower.as_str());
        }
        n = n + 1;
    }
    trim_ends(&output, '-')
}

/// The value in the case that `case` names, or as it is.
fn apply_case(value: &str, case: &str) -> (result: String)
    ensures
        result@ == cased(value@, case@),
{
    let chars = chars::chars_of(value);
    if chars::same_text(case, "upcase") {
        chars::to_uppercase(value)
    } else if chars::same_text(case, "downcase") {
        chars::to_lowercase(value)
    } else if chars::same_text(case, "capitalize") {
        capitalize(&chars)
    } else if chars::same_text(case, "pascalcase") {
        join_words(&chars, false)
    } else if chars::same_text(case, "camelcase") {
        join_words(&chars, true)
    } else if chars::same_text(case, "snakecase") {
        snake_case(&chars)
    } else if chars::same_text(case, "kebabcase") {
        kebab_case(&chars)
    } else {
        value.to_owned()
    }
}

fn apply_capture_operation(value: &str, operation: &CaptureOperation) -> (result: String)
    ensures
        result@ == operated(value@, operation_model(*operation)),
{
    let empty = chars::chars_of(value).len() == 0;
    match operation {
        CaptureOperation::Copy => value.to_owned(),
        CaptureOperation::Case(case) => apply_case(value, case.as_str()),
        CaptureOperation::If(yes) => {
            if empty {
                String::new()
            } else {
                yes.clone()
            }
        },
        CaptureOperation::Else(no) => {
            if empty {
                no.clone()
            } else {
                value.to_owned()
            }
        },
        CaptureOperation::IfElse { if_value, else_value } => {
            if empty {
                else_value.clone()
            } else {
                if_value.clone()
            }
        },
    }
}

/// The output with `value` behind it, where that is not too long.
pub open spec fn appended(output: Seq<char>, value: Seq<char>) -> Option<Seq<char>> {
    if encode_utf8(output).len() + encode_utf8(value).len() > MAX_TRANSFORM_OUTPUT_BYTES {
        None
    } else {
        Some(output + value)
    }
}

fn append_bounded(output: &mut String, value: &str) -> (fits: bool)
    ensures
        match appended(old(output)@, value@) {
            Some(next) => fits && final(output)@ == next,
            None => !fits && final(output)@ == old(output)@,
        },
{
    let held: usize = output.as_str().as_bytes().len();
    let more: usize = value.as_bytes().len();
    if held > MAX_TRANSFORM_OUTPUT_BYTES || more > MAX_TRANSFORM_OUTPUT_BYTES - held {
        return false;
    }
    text::push_text(output, value);
    true
}

/// The groups of one match: the span of each that took part.
pub open spec fn groups_view(groups: Seq<Option<(usize, usize)>>) -> Seq<Option<(int, int)>> {
    Seq::new(
        groups.len(),
        |i: int|
            match groups[i] {
                Some(span) => Some((span.0 as int, span.1 as int)),
                None => None,
            },
    )
}

pub open spec fn matches_view(matches: Seq<Option<Vec<Option<(usize, usize)>>>>) -> Seq<
    Option<Seq<Option<(int, int)>>>,
> {
    Seq::new(
        matches.len(),
        |i: int|
            match matches[i] {
                Some(groups) => Some(groups_view(groups@)),
                None => None,
            },
    )
}

/// Whether `fancy_regex::RegexBuilder::build` accepts the pattern.
pub uninterp spec fn transform_compiles(
    pattern: Seq<char>,
    case_insensitive: bool,
    multi_line: bool,
    dot_matches_new_line: bool,
    backtrack_limit: usize,
    size_limit: usize,
) -> bool;

/// Calls `fancy_regex::RegexBuilder::build`: whether the pattern compiles with
/// the options and limits is named by `transform_compiles`.
#[verifier::external_body]
fn check_compiles(
    pattern: &str,
    case_insensitive: bool,
    multi_line: bool,
    dot_matches_new_line: bool,
    backtrack_limit: usize,
    size_limit: usize,
) -> (compiles: bool)
    ensures
        compiles == transform_compiles(
            pattern@,
            case_insensitive,
            multi_line,
            dot_matches_new_line,
            backtrack_limit,
            size_limit,
        ),
{
    let mut builder = fancy_regex::RegexBuilder::new(pattern);
    builder.case_insensitive(case_insensitive).multi_line(multi_line);
    builder.dot_matches_new_line(dot_matches_new_line).unicode_mode(true);
    builder.backtrack_limit(backtrack_limit).delegate_size_limit(size_limit);
    builder.delegate_dfa_size_limit(size_limit).build().is_ok()
}

/// The groups of the first `count` matches that
/// `fancy_regex::Regex::captures_iter` gives, `None` standing for an error;
/// nothing where the pattern does not compile.
pub uninterp spec fn transform_matches(
    pattern: Seq<char>,
    case_insensitive: bool,
    multi_line: bool,
    dot_matches_new_line: bool,
    backtrack_limit: usize,
    size_limit: usize,
    text: Seq<char>,
    count: usize,
) -> Seq<Option<Seq<Option<(int, int)>>>>;

/// Compiles the pattern with `fancy_regex::RegexBuilder` and calls
/// `fancy_regex::Regex::captures_iter`: the spans of the groups of the first
/// `count` matches are named by `transform_matches`.
#[verifier::external_body]
fn find_groups(
    pattern: &str,
    flags: (bool, bool, bool),
    backtrack_limit: usize,
    size_limit: usize,
    text: &str,
    count: usize,
) -> (matches: Vec<Option<Vec<Option<(usize, usize)>>>>)
    ensures
        matches_view(matches@) == transform_matches(
            pattern@,
            flags.0,
            flags.1,
            flags.2,
            backtrack_limit,
            size_limit,
            text@,
            count,
        ),
{
    let mut builder = fancy_regex::RegexBuilder::new(pattern);
    builder.case_insensitive(flags.0).multi_line(flags.1).dot_matches_new_line(flags.2);
    builder.unicode_mode(true).backtrack_limit(backtrack_limit);
    builder.delegate_size_limit(size_limit).delegate_dfa_size_limit(size_limit);
    let Ok(compiled) = builder.build() else { return Vec::new() };
    let found = compiled.captures_iter(text).take(count);
    let groups = found.map(
        |m| m.ok().map(|c| c.iter().map(|g| g.map(|g| (g.start(), g.end()))).collect()),
    );
    groups.collect()
}

/// Whether the span is a part of the text on boundaries.
pub open spec fn is_part(t: Seq<u8>, span: (int, int)) -> bool {
    0 <= span.0 <= span.1 <= t.len() && text::is_boundary(t, span.0) && text::is_boundary(t, span.1)
}

/// What group `index` holds, or nothing.
pub open spec fn group_text(t: Seq<u8>, groups: Seq<Option<(int, int)>>, index: int) -> Seq<char> {
    if 0 <= index < groups.len() && groups[index] is Some && is_part(t, groups[index]->Some_0) {
        decode_utf8(t.subrange((groups[index]->Some_0).0, (groups[index]->Some_0).1))
    } else {
        Seq::empty()
    }
}

/// The output with the first `n` parts of the replacement behind it, where
/// that is not too long.
pub open spec fn rendered(
    output: Seq<char>,
    t: Seq<u8>,
    parts: Seq<PartModel>,
    groups: Seq<Option<(int, int)>>,
    n: int,
) -> Option<Seq<char>>
    decreases n,
{
    if n <= 0 {
        Some(output)
    } else {
        match rendered(output, t, parts, groups, n - 1) {
            None => None,
            Some(before) => appended(
                before,
                match parts[n - 1] {
                    PartModel::Text(text) => text,
                    PartModel::Capture(index, operation) => operated(
                        group_text(t, groups, index as int),
                        operation,
                    ),
                },
            ),
        }
    }
}

/// How far a value has been rewritten.
pub struct Rewrite {
    pub output: Seq<char>,
    pub end: int,
}

/// The value with its first `n` matches rewritten, up to the end of the last:
/// nothing where an error came, the matches are not in order, or the output
/// is too long.
pub open spec fn rewritten(
    value: Seq<char>,
    parts: Seq<PartModel>,
    matches: Seq<Option<Seq<Option<(int, int)>>>>,
    n: int,
) -> Option<Rewrite>
    decreases n,
{
    let t = encode_utf8(value);
    if n <= 0 {
        Some(Rewrite { output: Seq::empty(), end: 0 })
    } else {
        match rewritten(value, parts, matches, n - 1) {
            None => None,
            Some(before) => match matches[n - 1] {
                None => None,
                Some(groups) => if groups.len() == 0 || groups[0] is None || !is_part(
                    t,
                    groups[0]->Some_0,
                ) || (groups[0]->Some_0).0 < before.end {
                    None
                } else {
                    let whole = groups[0]->Some_0;
                    match appended(
                        before.output,
                        decode_utf8(t.subrange(before.end, whole.0)),
                    ) {
                        None => None,
                        Some(output) => match rendered(
                            output,
                            t,
                            parts,
                            groups,
                            parts.len() as int,
                        ) {
                            None => None,
                            Some(output) => Some(Rewrite { output, end: whole.1 }),
                        },
                    }
                },
            },
        }
    }
}

/// Whether the replacement says what to do where nothing was captured.
pub open spec fn has_else(parts: Seq<PartModel>) -> bool {
    exists|i: int|
        #![trigger parts[i]]
        0 <= i < parts.len() && (parts[i] matches PartModel::Capture(index, operation)
            && (operation is Else || operation is IfElse))
}

/// What the transformation makes of a value, given the matches: the value
/// itself where that does not come to an end or would be too long.
pub open spec fn transformed(
    value: Seq<char>,
    parts: Seq<PartModel>,
    global: bool,
    matches: Seq<Option<Seq<Option<(int, int)>>>>,
) -> Seq<char> {
    let t = encode_utf8(value);
    let count = if global || matches.len() == 0 {
        matches.len() as int
    } else {
        1
    };
    if matches.len() == 0 {
        if has_else(parts) {
            match rendered(Seq::empty(), t, parts, Seq::empty(), parts.len() as int) {
                Some(output) => output,
                None => value,
            }
        } else {
            value
        }
    } else if global && matches.len() > MAX_TRANSFORM_MATCHES {
        value
    } else {
        match rewritten(value, parts, matches, count) {
            None => value,
            Some(done) => match appended(
                done.output,
                decode_utf8(t.subrange(done.end, t.len() as int)),
            ) {
                Some(output) => output,
                None => value,
            },
        }
    }
}

fn check_part(text: &str, span: (usize, usize)) -> (part: bool)
    ensures
        part == is_part(encode_utf8(text@), (span.0 as int, span.1 as int)),
{
    let bytes = text.as_bytes();
    span.0 <= span.1 && span.1 <= bytes.len() && check_boundary(bytes, span.0) && check_boundary(
        bytes,
        span.1,
    )
}

fn check_boundary(bytes: &[u8], offset: usize) -> (boundary: bool)
    requires
        offset <= bytes@.len(),
    ensures
        boundary == text::is_boundary(bytes@, offset as int),
{
    offset == 0 || offset == bytes.len() || bytes[offset] < 0x80 || bytes[offset] >= 0xc0
}

fn copy_part(text: &str, start: usize, end: usize) -> (part: String)
    requires
        is_part(encode_utf8(text@), (start as int, end as int)),
    ensures
        part@ == decode_utf8(encode_utf8(text@).subrange(start as int, end as int)),
{
    let part = text::slice_text(text, start, end);
    proof {
        encode_utf8_decode_utf8(part@);
    }
    part
}

fn render_format(
    output: &mut String,
    value: &str,
    parts: &Vec<FormatPart>,
    groups: &Vec<Option<(usize, usize)>>,
) -> (fits: bool)
    ensures
        match rendered(
            old(output)@,
            encode_utf8(value@),
            parts_model(parts@),
            groups_view(groups@),
            parts@.len() as int,
        ) {
            Some(next) => fits && final(output)@ == next,
            None => !fits,
        },
{
    let ghost t = encode_utf8(value@);
    let ghost pv = parts_model(parts@);
    let ghost gv = groups_view(groups@);
    let ghost start = output@;
    let mut n: usize = 0;
    while n < parts.len()
        invariant
            n <= parts@.len(),
            t == encode_utf8(value@),
            pv == parts_model(parts@),
            gv == groups_view(groups@),
            start == old(output)@,
            rendered(start, t, pv, gv, n as int) == Some(output@),
        decreases parts.len() - n,
    {
        assert(pv[n as int] == part_model(parts@[n as int]));
        let fits = match &parts[n] {
            FormatPart::Text(text) => append_bounded(output, text.as_str()),
            FormatPart::Capture { index, operation } => {
                let mut captured = String::new();
                assert(captured@ =~= Seq::<char>::empty());
                let at: usize = *index;
                if at < groups.len() {
                    assert(gv[at as int] == (match groups@[at as int] {
                        Some(span) => Some((span.0 as int, span.1 as int)),
                        None => None,
                    }));
                    if let Some(span) = groups[at] {
                        if check_part(value, span) {
                            captured = copy_part(value, span.0, span.1);
                        }
                    }
                }
                assert(captured@ == group_text(t, gv, at as int));
                let made = apply_capture_operation(captured.as_str(), operation);
                append_bounded(output, made.as_str())
            },
        };
        if !fits {
            proof {
                lemma_rendered_stops(start, t, pv, gv, n + 1, parts@.len() as int);
            }
            return false;
        }
        n = n + 1;
    }
    true
}

proof fn lemma_rendered_stops(
    output: Seq<char>,
    t: Seq<u8>,
    parts: Seq<PartModel>,
    groups: Seq<Option<(int, int)>>,
    a: int,
    b: int,
)
    requires
        0 < a <= b,
        rendered(output, t, parts, groups, a) is None,
    ensures
        rendered(output, t, parts, groups, b) is None,
    decreases b - a,
{
    if a < b {
        lemma_rendered_stops(output, t, parts, groups, a, b - 1);
    }
}

proof fn lemma_rewritten_stops(
    value: Seq<char>,
    parts: Seq<PartModel>,
    matches: Seq<Option<Seq<Option<(int, int)>>>>,
    a: int,
    b: int,
)
    requires
        0 < a <= b,
        rewritten(value, parts, matches, a) is None,
    ensures
        rewritten(value, parts, matches, b) is None,
    decreases b - a,
{
    if a < b {
        lemma_rewritten_stops(value, parts, matches, a, b - 1);
    }
}

fn check_has_else(parts: &Vec<FormatPart>) -> (found: bool)
    ensures
        found == has_else(parts_model(parts@)),
{
    let ghost pv = parts_model(parts@);
    let mut i: usize = 0;
    while i < parts.len()
        invariant
            i <= parts@.len(),
            pv == parts_model(parts@),
            forall|k: int|
                #![trigger pv[k]]
                0 <= k < i ==> !(pv[k] matches PartModel::Capture(index, operation) && (operation
                    is Else || operation is IfElse)),
        decreases parts.len() - i,
    {
        assert(pv[i as int] == part_model(parts@[i as int]));
        match &parts[i] {
            FormatPart::Capture { index: _, operation } => {
                match operation {
                    CaptureOperation::Else(_) => {
                        return true;
                    },
                    CaptureOperation::IfElse { .. } => {
                        return true;
                    },
                    _ => {},
                }
            },
            _ => {},
        }
        i = i + 1;
    }
    false
}

/// What the transformation makes of a value, given the matches of its pattern.
pub fn apply_to_matches(
    value: &str,
    parts: &Vec<FormatPart>,
    global: bool,
    matches: &Vec<Option<Vec<Option<(usize, usize)>>>>,
) -> (result: String)
    ensures
        result@ == transformed(value@, parts_model(parts@), global, matches_view(matches@)),
{
    let ghost t = encode_utf8(value@);
    let ghost pv = parts_model(parts@);
    let ghost mv = matches_view(matches@);
    let mut output = String::new();
    assert(output@ =~= Seq::<char>::empty());
    if matches.len() == 0 {
        if check_has_else(parts) {
            let none: Vec<Option<(usize, usize)>> = Vec::new();
            assert(groups_view(none@) =~= Seq::<Option<(int, int)>>::empty());
            if render_format(&mut output, value, parts, &none) {
                return output;
            }
        }
        return value.to_owned();
    }
    if global && matches.len() > MAX_TRANSFORM_MATCHES {
        return value.to_owned();
    }
    let count: usize = if global {
        matches.len()
    } else {
        1
    };
    let mut end: usize = 0;
    let mut n: usize = 0;
    while n < count
        invariant
            n <= count <= matches@.len(),
            t == encode_utf8(value@),
            pv == parts_model(parts@),
            mv == matches_view(matches@),
            mv.len() > 0,
            count == (if global || mv.len() == 0 {
                mv.len() as int
            } else {
                1
            }),
            !(global && mv.len() > MAX_TRANSFORM_MATCHES),
            end <= t.len(),
            text::is_boundary(t, end as int),
            rewritten(value@, pv, mv, n as int) == Some(
                Rewrite { output: output@, end: end as int },
            ),
        decreases count - n,
    {
        assert(mv[n as int] == (match matches@[n as int] {
            Some(groups) => Some(groups_view(groups@)),
            None => None,
        }));
        let mut next: Option<usize> = None;
        if let Some(groups) = &matches[n] {
            let ghost gv = groups_view(groups@);
            if groups.len() > 0 {
                assert(gv[0] == (match groups@[0] {
                    Some(span) => Some((span.0 as int, span.1 as int)),
                    None => None,
                }));
                if let Some(whole) = groups[0] {
                    if check_part(value, whole) && whole.0 >= end {
                        let between = copy_part(value, end, whole.0);
                        if append_bounded(&mut output, between.as_str()) {
                            if render_format(&mut output, value, parts, groups) {
                                next = Some(whole.1);
                            }
                        }
                    }
                }
            }
        }
        match next {
            Some(stop) => {
                end = stop;
            },
            None => {
                proof {
                    lemma_rewritten_stops(value@, pv, mv, n + 1, count as int);
                }
                return value.to_owned();
            },
        }
        n = n + 1;
    }
    let rest = copy_part(value, end, value.as_bytes().len());
    if append_bounded(&mut output, rest.as_str()) {
        output
    } else {
        value.to_owned()
    }
}

/// A rewriting of what matches a regular expression.
pub struct SnippetTransform {
    pub pattern: String,
    pub options: String,
    pub format: Vec<FormatPart>,
}

/// Whether the options are known flags, each given once.
pub open spec fn options_valid(options: Seq<char>) -> bool {
    &&& forall|i: int|
        #![trigger options[i]]
        0 <= i < options.len() ==> (options[i] == 'g' || options[i] == 'i' || options[i] == 'm'
            || options[i] == 's' || options[i] == 'u')
    &&& forall|i: int, j: int|
        #![trigger options[i], options[j]]
        0 <= i < j < options.len() ==> options[i] != options[j]
}

fn check_options(options: &Vec<char>) -> (valid: bool)
    ensures
        valid == options_valid(options@),
{
    let mut j: usize = 0;
    while j < options.len()
        invariant
            j <= options@.len(),
            forall|i: int|
                #![trigger options@[i]]
                0 <= i < j ==> (options@[i] == 'g' || options@[i] == 'i' || options@[i] == 'm'
                    || options@[i] == 's' || options@[i] == 'u'),
            forall|a: int, b: int|
                #![trigger options@[a], options@[b]]
                0 <= a < b < j ==> options@[a] != options@[b],
        decreases options.len() - j,
    {
        let c = options[j];
        if !(c == 'g' || c == 'i' || c == 'm' || c == 's' || c == 'u') {
            assert(options@[j as int] == c);
            return false;
        }
        let mut i: usize = 0;
        while i < j
            invariant
                i <= j < options@.len(),
                c == options@[j as int],
                forall|a: int| 0 <= a < i ==> #[trigger] options@[a] != c,
            decreases j - i,
        {
            if options[i] == c {
                assert(options@[i as int] == options@[j as int]);
                return false;
            }
            i = i + 1;
        }
        j = j + 1;
    }
    true
}

fn has_option(options: &Vec<char>, wanted: char) -> (found: bool)
    ensures
        found == options@.contains(wanted),
{
    let mut i: usize = 0;
    while i < options.len()
        invariant
            i <= options@.len(),
            forall|k: int| 0 <= k < i ==> options@[k] != wanted,
        decreases options.len() - i,
    {
        if options[i] == wanted {
            assert(options@[i as int] == wanted);
            return true;
        }
        i = i + 1;
    }
    false
}

impl SnippetTransform {
    /// Reads a transformation: its options have to be known flags, each given
    /// once, and its pattern has to compile.
    pub fn parse(pattern: &str, format: &str, options: &str) -> (transform: Option<Self>)
        ensures
            match transform {
                Some(transform) => {
                    &&& options_valid(options@)
                    &&& transform_compiles(
                        pattern@,
                        options@.contains('i'),
                        options@.contains('m'),
                        options@.contains('s'),
                        MAX_BACKTRACK_STEPS,
                        MAX_COMPILED_REGEX_BYTES,
                    )
                    &&& transform.pattern@ == pattern@
                    &&& transform.options@ == options@
                    &&& parts_model(transform.format@) == format_from(
                        format@,
                        0,
                        Seq::empty(),
                        Seq::empty(),
                    )
                },
                None => !(options_valid(options@) && transform_compiles(
                    pattern@,
                    options@.contains('i'),
                    options@.contains('m'),
                    options@.contains('s'),
                    MAX_BACKTRACK_STEPS,
                    MAX_COMPILED_REGEX_BYTES,
                )),
            },
    {
        let flags = chars::chars_of(options);
        if !check_options(&flags) {
            return None;
        }
        if !check_compiles(
            pattern,
            has_option(&flags, 'i'),
            has_option(&flags, 'm'),
            has_option(&flags, 's'),
            MAX_BACKTRACK_STEPS,
            MAX_COMPILED_REGEX_BYTES,
        ) {
            return None;
        }
        Some(
            SnippetTransform {
                pattern: pattern.to_owned(),
                options: options.to_owned(),
                format: parse_format(format),
            },
        )
    }

    /// Rewrites what the pattern matches: the first match, or all of them with
    /// the flag `g`.
    pub fn apply(&self, value: &str) -> (result: String)
        ensures
            result@ == transformed(
                value@,
                parts_model(self.format@),
                self.options@.contains('g'),
                transform_matches(
                    self.pattern@,
                    self.options@.contains('i'),
                    self.options@.contains('m'),
                    self.options@.contains('s'),
                    MAX_BACKTRACK_STEPS,
                    MAX_COMPILED_REGEX_BYTES,
                    value@,
                    (MAX_TRANSFORM_MATCHES + 1) as usize,
                ),
            ),
    {
        let flags = chars::chars_of(self.options.as_str());
        let matches = find_groups(
            self.pattern.as_str(),
            (has_option(&flags, 'i'), has_option(&flags, 'm'), has_option(&flags, 's')),
            MAX_BACKTRACK_STEPS,
            MAX_COMPILED_REGEX_BYTES,
            value,
            MAX_TRANSFORM_MATCHES + 1,
        );
        apply_to_matches(value, &self.format, has_option(&flags, 'g'), &matches)
    }
}

/// What a transformation of a variable makes of its value, where its options are
/// known and its pattern compiles.
pub open spec fn transform_result(
    pattern: Seq<char>,
    format: Seq<char>,
    options: Seq<char>,
    value: Seq<char>,
) -> Option<Seq<char>> {
    if options_valid(options) && transform_compiles(
        pattern,
        options.contains('i'),
        options.contains('m'),
        options.contains('s'),
        MAX_BACKTRACK_STEPS,
        MAX_COMPILED_REGEX_BYTES,
    ) {
        Some(
            transformed(
                value,
                format_from(format, 0, Seq::empty(), Seq::empty()),
                options.contains('g'),
                transform_matches(
                    pattern,
                    options.contains('i'),
                    options.contains('m'),
                    options.contains('s'),
                    MAX_BACKTRACK_STEPS,
                    MAX_COMPILED_REGEX_BYTES,
                    value,
                    (MAX_TRANSFORM_MATCHES + 1) as usize,
                ),
            ),
        )
    } else {
        None
    }
}

/// What a transformation of a variable makes of its value.
pub fn transform_value(pattern: &str, format: &str, options: &str, value: &str) -> (result: Option<
    String,
>)
    ensures
        match result {
            Some(result) => transform_result(pattern@, format@, options@, value@) == Some(result@),
            None => transform_result(pattern@, format@, options@, value@) is None,
        },
{
    match SnippetTransform::parse(pattern, format, options) {
        Some(transform) => Some(transform.apply(value)),
        None => None,
    }
}

/// Where the pattern of a transformation ends: at the first unescaped slash.
pub open spec fn slash_at(src: Seq<char>, from: int, escaped: bool) -> Option<int>
    decreases src.len() - from,
{
    if from < 0 || from >= src.len() {
        None
    } else if escaped {
        slash_at(src, from + 1, false)
    } else if src[from] == '\\' {
        slash_at(src, from + 1, true)
    } else if src[from] == '/' {
        Some(from)
    } else {
        slash_at(src, from + 1, false)
    }
}

/// Where the format of a transformation ends: at the first unescaped slash that
/// does not stand in an expression in braces.
pub open spec fn format_end(src: Seq<char>, from: int) -> Option<int>
    decreases src.len() - from,
{
    if from < 0 || from >= src.len() {
        None
    } else if src[from] == '\\' {
        if from + 1 < src.len() {
            format_end(src, from + 2)
        } else {
            None
        }
    } else if src[from] == '/' {
        Some(from)
    } else if src[from] == '$' && from + 1 < src.len() && src[from + 1] == '{' {
        match body_end(src, from + 2, false) {
            Some(end) => if from < end < src.len() {
                format_end(src, end + 1)
            } else {
                None
            },
            None => format_end(src, from + 1),
        }
    } else {
        format_end(src, from + 1)
    }
}

/// The first closing brace.
pub open spec fn brace_at(src: Seq<char>, from: int) -> Option<int>
    decreases src.len() - from,
{
    if from < 0 || from >= src.len() {
        None
    } else if src[from] == '}' {
        Some(from)
    } else {
        brace_at(src, from + 1)
    }
}

/// Where the pattern, the format and the options of a transformation end whose
/// pattern starts at `from`.
pub open spec fn transform_ends(src: Seq<char>, from: int) -> Option<(int, int, int)> {
    match slash_at(src, from, false) {
        Some(pattern) => match format_end(src, pattern + 1) {
            Some(format) => match brace_at(src, format + 1) {
                Some(options) => Some((pattern, format, options)),
                None => None,
            },
            None => None,
        },
        None => None,
    }
}

proof fn lemma_slash_at(src: Seq<char>, from: int, escaped: bool)
    requires
        0 <= from,
    ensures
        slash_at(src, from, escaped) matches Some(at) ==> from <= at < src.len(),
    decreases src.len() - from,
{
    if from < src.len() {
        lemma_slash_at(src, from + 1, false);
        lemma_slash_at(src, from + 1, true);
    }
}

proof fn lemma_body_end(src: Seq<char>, from: int, escaped: bool)
    requires
        0 <= from,
    ensures
        body_end(src, from, escaped) matches Some(at) ==> from <= at < src.len(),
    decreases src.len() - from,
{
    if from < src.len() {
        lemma_body_end(src, from + 1, false);
        lemma_body_end(src, from + 1, true);
    }
}

proof fn lemma_format_end(src: Seq<char>, from: int)
    requires
        0 <= from,
    ensures
        format_end(src, from) matches Some(at) ==> from <= at < src.len(),
    decreases src.len() - from,
{
    if from < src.len() {
        if src[from] == '\\' {
            if from + 1 < src.len() {
                lemma_format_end(src, from + 2);
            }
        } else if src[from] != '/' {
            lemma_format_end(src, from + 1);
            lemma_body_end(src, from + 2, false);
            match body_end(src, from + 2, false) {
                Some(end) => {
                    lemma_format_end(src, end + 1);
                },
                None => {},
            }
        }
    }
}

proof fn lemma_brace_at(src: Seq<char>, from: int)
    requires
        0 <= from,
    ensures
        brace_at(src, from) matches Some(at) ==> from <= at < src.len(),
    decreases src.len() - from,
{
    if from < src.len() {
        lemma_brace_at(src, from + 1);
    }
}

/// The parts of a transformation lie one behind the other.
pub proof fn lemma_transform_ends(src: Seq<char>, from: int)
    requires
        0 <= from,
    ensures
        transform_ends(src, from) matches Some((pattern, format, options)) ==> from <= pattern
            < format < options < src.len(),
{
    lemma_slash_at(src, from, false);
    match slash_at(src, from, false) {
        Some(pattern) => {
            lemma_format_end(src, pattern + 1);
            match format_end(src, pattern + 1) {
                Some(format) => {
                    lemma_brace_at(src, format + 1);
                },
                None => {},
            }
        },
        None => {},
    }
}

/// Where the parts of a transformation end.
pub fn find_transform_ends(src: &Vec<char>, from: usize) -> (ends: Option<(usize, usize, usize)>)
    requires
        from <= src@.len(),
    ensures
        match ends {
            Some((pattern, format, options)) => {
                &&& transform_ends(src@, from as int) == Some(
                    (pattern as int, format as int, options as int),
                )
                &&& from <= pattern < format < options < src@.len()
            },
            None => transform_ends(src@, from as int) is None,
        },
{
    let ghost s = src@;
    proof {
        lemma_transform_ends(s, from as int);
        lemma_slash_at(s, from as int, false);
    }
    let mut pattern: usize = from;
    let mut escaped = false;
    while pattern < src.len() && (escaped || src[pattern] != '/')
        invariant
            s == src@,
            from <= pattern <= s.len(),
            slash_at(s, from as int, false) == slash_at(s, pattern as int, escaped),
        decreases src.len() - pattern,
    {
        escaped = !escaped && src[pattern] == '\\';
        pattern = pattern + 1;
    }
    if pattern >= src.len() {
        return None;
    }
    let start: usize = pattern + 1;
    let mut format: usize = start;
    while format < src.len() && src[format] != '/'
        invariant
            s == src@,
            start <= format <= s.len(),
            start == pattern + 1,
            slash_at(s, from as int, false) == Some(pattern as int),
            format_end(s, start as int) == format_end(s, format as int),
        decreases src.len() - format,
    {
        if src[format] == '\\' {
            if src.len() - format < 2 {
                return None;
            }
            format = format + 2;
        } else if src[format] == '$' && format + 1 < src.len() && src[format + 1] == '{' {
            match find_body_end(src, format + 2) {
                Some(end) => {
                    format = end + 1;
                },
                None => {
                    format = format + 1;
                },
            }
        } else {
            format = format + 1;
        }
    }
    if format >= src.len() {
        return None;
    }
    let first: usize = format + 1;
    let mut options: usize = first;
    while options < src.len() && src[options] != '}'
        invariant
            s == src@,
            first <= options <= s.len(),
            brace_at(s, first as int) == brace_at(s, options as int),
        decreases src.len() - options,
    {
        options = options + 1;
    }
    if options >= src.len() {
        return None;
    }
    Some((pattern, format, options))
}

proof fn lemma_rendered_bound(
    output: Seq<char>,
    t: Seq<u8>,
    parts: Seq<PartModel>,
    groups: Seq<Option<(int, int)>>,
    n: int,
)
    requires
        encode_utf8(output).len() <= MAX_TRANSFORM_OUTPUT_BYTES,
    ensures
        rendered(output, t, parts, groups, n) matches Some(result) ==> encode_utf8(result).len()
            <= MAX_TRANSFORM_OUTPUT_BYTES,
    decreases n,
{
    if n > 0 {
        lemma_rendered_bound(output, t, parts, groups, n - 1);
        if let Some(before) = rendered(output, t, parts, groups, n - 1) {
            let value = match parts[n - 1] {
                PartModel::Text(text) => text,
                PartModel::Capture(index, operation) => operated(
                    group_text(t, groups, index as int),
                    operation,
                ),
            };
            text::lemma_encode_concat(before, value);
        }
    }
}

/// What a transformation gives is the value itself, or no longer than the
/// limit on its output.
pub proof fn law_output_is_bounded(
    value: Seq<char>,
    parts: Seq<PartModel>,
    global: bool,
    matches: Seq<Option<Seq<Option<(int, int)>>>>,
)
    ensures
        transformed(value, parts, global, matches) == value || encode_utf8(
            transformed(value, parts, global, matches),
        ).len() <= MAX_TRANSFORM_OUTPUT_BYTES,
{
    let t = encode_utf8(value);
    assert(encode_utf8(Seq::<char>::empty()) =~= Seq::<u8>::empty());
    lemma_rendered_bound(Seq::empty(), t, parts, Seq::empty(), parts.len() as int);
    let count = if global || matches.len() == 0 {
        matches.len() as int
    } else {
        1
    };
    if let Some(done) = rewritten(value, parts, matches, count) {
        let rest = decode_utf8(t.subrange(done.end, t.len() as int));
        text::lemma_encode_concat(done.output, rest);
    }
}

} // verus!

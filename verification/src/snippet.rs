//! Snippets: text with tab stops.

use crate::chars;
use crate::order;
use crate::snippet_transform;
use crate::snippet_variables::SnippetVariables;
use crate::text;
use std::ops::Range;
use vstd::prelude::*;
use vstd::string::*;
use vstd::utf8::*;

verus! {

/// The places of one tab stop: the first is edited, the others mirror it.
#[derive(Debug, PartialEq, Eq)]
pub struct SnippetTabstop {
    pub index: u32,
    pub ranges: Vec<Range<usize>>,
}

/// The text that a snippet inserts, and its tab stops in the order in which
/// they are visited.
#[derive(Debug, PartialEq, Eq)]
pub struct ParsedSnippet {
    pub text: String,
    pub tabstops: Vec<SnippetTabstop>,
}

pub open spec fn tabstops_view(tabstops: Seq<SnippetTabstop>) -> Seq<(u32, Seq<(int, int)>)> {
    Seq::new(tabstops.len(), |i: int| (tabstops[i].index, text::ranges_view(tabstops[i].ranges@)))
}

/// How far a snippet has been read: where reading goes on, the text so far,
/// the places of tab stops and the defaults of those that have one, each in
/// the order in which they were met.
pub struct Progress {
    pub offset: int,
    pub text: Seq<char>,
    pub ranges: Seq<(u32, int, int)>,
    pub defaults: Seq<(u32, Seq<char>)>,
}

pub open spec fn is_digit(c: char) -> bool {
    '0' <= c && c <= '9'
}

pub open spec fn is_name_character(c: char) -> bool {
    is_digit(c) || ('a' <= c && c <= 'z') || ('A' <= c && c <= 'Z') || c == '_'
}

/// Where the digits that start at `from` end.
pub open spec fn digits_end(src: Seq<char>, from: int) -> int
    decreases src.len() - from,
{
    if from < 0 || from >= src.len() || !is_digit(src[from]) {
        from
    } else {
        digits_end(src, from + 1)
    }
}

/// Where the name that starts at `from` ends.
pub open spec fn name_end(src: Seq<char>, from: int) -> int
    decreases src.len() - from,
{
    if from < 0 || from >= src.len() || !is_name_character(src[from]) {
        from
    } else {
        name_end(src, from + 1)
    }
}

/// The number that the digits from `from` to `to` write.
pub open spec fn number(src: Seq<char>, from: int, to: int) -> int
    decreases to - from,
{
    if to <= from {
        0
    } else {
        10 * number(src, from, to - 1) + (src[to - 1] as int - '0' as int)
    }
}

/// The value of a variable that is known without an editor.
pub open spec fn variable(name: Seq<char>) -> Option<Seq<char>> {
    if name == "TM_SELECTED_TEXT"@ || name == "CLIPBOARD"@ {
        Some(Seq::empty())
    } else {
        None
    }
}

/// The value of a variable: one of the known ones, or without any the value that
/// is known without an editor.
pub open spec fn value_of(known: Option<Map<Seq<char>, Seq<char>>>, name: Seq<char>) -> Option<
    Seq<char>,
> {
    match known {
        Some(known) => if known.dom().contains(name) {
            Some(known[name])
        } else {
            None
        },
        None => variable(name),
    }
}

/// What a variable without a default reads: its value; where it has none, what is
/// known of it without an editor, or else its name.
pub open spec fn value_or_name(
    known: Option<Map<Seq<char>, Seq<char>>>,
    name: Seq<char>,
) -> Seq<char> {
    match value_of(known, name) {
        Some(value) => value,
        None => match variable(name) {
            Some(value) => value,
            None => name,
        },
    }
}

/// What a transformation of a variable reads: what it makes of the value, or of
/// the empty text where the variable has none.
pub open spec fn transformed_value(
    known: Map<Seq<char>, Seq<char>>,
    name: Seq<char>,
    pattern: Seq<char>,
    format: Seq<char>,
    options: Seq<char>,
) -> Option<Seq<char>> {
    let value = match value_of(Some(known), name) {
        Some(value) => value,
        None => Seq::empty(),
    };
    snippet_transform::transform_result(pattern, format, options, value)
}

/// Reads a transformation of a variable up to its closing brace, the slash before
/// its pattern being at `at`. Without known variables there is none.
pub open spec fn read_transform(
    src: Seq<char>,
    m: Progress,
    known: Option<Map<Seq<char>, Seq<char>>>,
    name: Seq<char>,
    at: int,
) -> Option<Progress> {
    match (known, snippet_transform::transform_ends(src, at + 1)) {
        (Some(known), Some((a, b, c))) => match transformed_value(
            known,
            name,
            src.subrange(at + 1, a),
            src.subrange(a + 1, b),
            src.subrange(b + 1, c),
        ) {
            Some(value) => Some(Progress { offset: c + 1, text: m.text + value, ..m }),
            None => None,
        },
        _ => None,
    }
}

/// The first default that was met for a tab stop.
pub open spec fn default_of(defaults: Seq<(u32, Seq<char>)>, index: u32, from: int) -> Option<
    Seq<char>,
>
    decreases defaults.len() - from,
{
    if from < 0 || from >= defaults.len() {
        None
    } else if defaults[from].0 == index {
        Some(defaults[from].1)
    } else {
        default_of(defaults, index, from + 1)
    }
}

/// A tab stop without a default of its own: it shows the default met before.
pub open spec fn with_tabstop(m: Progress, index: u32) -> Progress {
    let value = match default_of(m.defaults, index, 0) {
        Some(value) => value,
        None => Seq::empty(),
    };
    Progress {
        text: m.text + value,
        ranges: m.ranges.push(
            (index, chars::byte_len(m.text), chars::byte_len(m.text + value)),
        ),
        ..m
    }
}

/// A tab stop whose default is what was added to `text`.
pub open spec fn with_default(m: Progress, index: u32, text: Seq<char>) -> Progress {
    Progress {
        ranges: m.ranges.push((index, chars::byte_len(text), chars::byte_len(m.text))),
        defaults: m.defaults.push((index, m.text.skip(text.len() as int))),
        ..m
    }
}

/// Where a list of choices ends: at the first unescaped `|` before a `}`.
pub open spec fn choice_end(src: Seq<char>, from: int, escaped: bool) -> Option<int>
    decreases src.len() - from,
{
    if from < 0 || from + 1 >= src.len() {
        None
    } else if escaped {
        choice_end(src, from + 1, false)
    } else if src[from] == '\\' {
        choice_end(src, from + 1, true)
    } else if src[from] == '|' && src[from + 1] == '}' {
        Some(from)
    } else {
        choice_end(src, from + 1, false)
    }
}

/// What the first of the choices reads, up to an unescaped comma.
pub open spec fn first_choice(raw: Seq<char>, from: int, escaped: bool) -> Seq<char>
    decreases raw.len() - from,
{
    if from < 0 || from >= raw.len() {
        if escaped {
            seq!['\\']
        } else {
            Seq::empty()
        }
    } else if escaped {
        seq![raw[from]] + first_choice(raw, from + 1, false)
    } else if raw[from] == '\\' {
        first_choice(raw, from + 1, true)
    } else if raw[from] == ',' {
        Seq::empty()
    } else {
        seq![raw[from]] + first_choice(raw, from + 1, false)
    }
}

/// Where text in braces ends, the opening brace having been read.
pub open spec fn braces_end(src: Seq<char>, from: int, depth: nat) -> int
    decreases src.len() - from,
{
    if from < 0 || from >= src.len() {
        src.len() as int
    } else if src[from] == '\\' {
        braces_end(
            src,
            if from + 2 <= src.len() {
                from + 2
            } else {
                src.len() as int
            },
            depth,
        )
    } else if src[from] == '{' {
        braces_end(src, from + 1, depth + 1)
    } else if src[from] == '}' {
        if depth == 0 {
            from + 1
        } else {
            braces_end(src, from + 1, (depth - 1) as nat)
        }
    } else {
        braces_end(src, from + 1, depth)
    }
}

/// Reads one character as it stands.
pub open spec fn read_plain(src: Seq<char>, m: Progress) -> Progress {
    Progress { offset: m.offset + 1, text: m.text.push(src[m.offset]), ..m }
}

/// Reads a backslash: it goes where it escapes a character with a meaning.
pub open spec fn read_escape(src: Seq<char>, m: Progress) -> Progress {
    let next = m.offset + 1;
    if next < src.len() && (src[next] == '\\' || src[next] == '$' || src[next] == '}' || src[next]
        == ',' || src[next] == '|') {
        Progress { offset: next + 1, text: m.text.push(src[next]), ..m }
    } else {
        Progress { offset: next, text: m.text.push('\\'), ..m }
    }
}

/// Reads up to the terminator, or to the end.
pub open spec fn read_until(
    src: Seq<char>,
    m: Progress,
    terminator: Option<char>,
    known: Option<Map<Seq<char>, Seq<char>>>,
) -> Progress
    decreases src.len() - m.offset, 1int,
{
    if m.offset < 0 || m.offset >= src.len() {
        m
    } else if terminator == Some(src[m.offset]) {
        Progress { offset: m.offset + 1, ..m }
    } else if src[m.offset] == '\\' {
        read_until(src, read_escape(src, m), terminator, known)
    } else if src[m.offset] == '$' {
        match read_dollar(src, m, known) {
            Some(next) => if next.offset <= m.offset || next.offset > src.len() {
                next
            } else {
                read_until(src, next, terminator, known)
            },
            None => read_until(src, read_plain(src, m), terminator, known),
        }
    } else {
        read_until(src, read_plain(src, m), terminator, known)
    }
}

/// Reads what a dollar sign starts, where it starts something.
pub open spec fn read_dollar(
    src: Seq<char>,
    m: Progress,
    known: Option<Map<Seq<char>, Seq<char>>>,
) -> Option<Progress>
    decreases src.len() - m.offset, 0int,
{
    let p = m.offset + 1;
    if m.offset < 0 || m.offset >= src.len() {
        None
    } else if p < src.len() && src[p] == '{' {
        let d = digits_end(src, p + 1);
        let n = name_end(src, d);
        proof {
            lemma_digits_end(src, p + 1);
            lemma_name_end(src, d);
        }
        if d > p + 1 && number(src, p + 1, d) <= u32::MAX {
            let index = number(src, p + 1, d) as u32;
            if d >= src.len() {
                None
            } else if src[d] == '}' {
                Some(with_tabstop(Progress { offset: d + 1, ..m }, index))
            } else if src[d] == ':' {
                Some(
                    with_default(
                        read_until(src, Progress { offset: d + 1, ..m }, Some('}'), known),
                        index,
                        m.text,
                    ),
                )
            } else if src[d] == '|' {
                match choice_end(src, d + 1, false) {
                    Some(e) => {
                        let first = first_choice(src.subrange(d + 1, e), 0, false);
                        Some(
                            with_default(
                                Progress { offset: e + 2, text: m.text + first, ..m },
                                index,
                                m.text,
                            ),
                        )
                    },
                    None => None,
                }
            } else {
                None
            }
        } else if n > d && n < src.len() {
            let name = src.subrange(d, n);
            if src[n] == '}' {
                Some(Progress { offset: n + 1, text: m.text + value_or_name(known, name), ..m })
            } else if src[n] == '/' {
                read_transform(src, m, known, name, n)
            } else if src[n] == ':' {
                match value_of(known, name) {
                    Some(value) => Some(
                        Progress {
                            offset: braces_end(src, n + 1, 0),
                            text: m.text + value,
                            ..m
                        },
                    ),
                    None => Some(read_until(src, Progress { offset: n + 1, ..m }, Some('}'), known)),
                }
            } else {
                None
            }
        } else {
            None
        }
    } else {
        let d = digits_end(src, p);
        let n = name_end(src, d);
        if d > p && number(src, p, d) <= u32::MAX {
            Some(with_tabstop(Progress { offset: d, ..m }, number(src, p, d) as u32))
        } else if n > d {
            Some(
                Progress {
                    offset: n,
                    text: m.text + value_or_name(known, src.subrange(d, n)),
                    ..m
                },
            )
        } else {
            None
        }
    }
}

/// Where reading starts.
pub open spec fn unread() -> Progress {
    Progress { offset: 0, text: Seq::empty(), ranges: Seq::empty(), defaults: Seq::empty() }
}

/// All of a snippet, read.
pub open spec fn read_snippet(src: Seq<char>) -> Progress {
    read_until(src, unread(), None, None)
}

/// All of a snippet, read with the values of variables.
pub open spec fn read_snippet_with(src: Seq<char>, known: Map<Seq<char>, Seq<char>>) -> Progress {
    read_until(src, unread(), None, Some(known))
}

/// The order in which a tab stop is visited: by its number, with 0 at the end.
pub open spec fn visit_key(index: u32) -> int {
    if index == 0 {
        u32::MAX as int
    } else {
        index - 1
    }
}

/// The keys of the tab stops among the first `n` places, ascending.
pub open spec fn visit_keys(ranges: Seq<(u32, int, int)>, n: int) -> Seq<int>
    decreases n,
{
    if n <= 0 {
        Seq::empty()
    } else {
        order::with_key(visit_keys(ranges, n - 1), visit_key(ranges[n - 1].0))
    }
}

/// The places with the key among the first `n`, in order.
pub open spec fn places_of(ranges: Seq<(u32, int, int)>, key: int, n: int) -> Seq<(int, int)>
    decreases n,
{
    if n <= 0 {
        Seq::empty()
    } else {
        let before = places_of(ranges, key, n - 1);
        if visit_key(ranges[n - 1].0) == key {
            before.push((ranges[n - 1].1, ranges[n - 1].2))
        } else {
            before
        }
    }
}

pub open spec fn index_of_key(key: int) -> u32 {
    if key == u32::MAX {
        0
    } else {
        (key + 1) as u32
    }
}

/// The tab stops in the order in which they are visited.
pub open spec fn grouped(ranges: Seq<(u32, int, int)>) -> Seq<(u32, Seq<(int, int)>)> {
    let keys = visit_keys(ranges, ranges.len() as int);
    Seq::new(
        keys.len(),
        |i: int| (index_of_key(keys[i]), places_of(ranges, keys[i], ranges.len() as int)),
    )
}

pub proof fn lemma_digits_end(src: Seq<char>, from: int)
    requires
        0 <= from <= src.len(),
    ensures
        from <= digits_end(src, from) <= src.len(),
    decreases src.len() - from,
{
    if from < src.len() && is_digit(src[from]) {
        lemma_digits_end(src, from + 1);
    }
}

pub proof fn lemma_name_end(src: Seq<char>, from: int)
    requires
        0 <= from <= src.len(),
    ensures
        from <= name_end(src, from) <= src.len(),
    decreases src.len() - from,
{
    if from < src.len() && is_name_character(src[from]) {
        lemma_name_end(src, from + 1);
    }
}

proof fn lemma_choice_end(src: Seq<char>, from: int, escaped: bool)
    requires
        0 <= from,
    ensures
        choice_end(src, from, escaped) matches Some(e) ==> from <= e && e + 2 <= src.len(),
    decreases src.len() - from,
{
    if from + 1 < src.len() {
        if escaped {
            lemma_choice_end(src, from + 1, false);
        } else if src[from] == '\\' {
            lemma_choice_end(src, from + 1, true);
        } else if !(src[from] == '|' && src[from + 1] == '}') {
            lemma_choice_end(src, from + 1, false);
        }
    }
}

proof fn lemma_braces_end(src: Seq<char>, from: int, depth: nat)
    requires
        0 <= from <= src.len(),
    ensures
        from <= braces_end(src, from, depth) <= src.len(),
    decreases src.len() - from,
{
    if from < src.len() {
        if src[from] == '\\' {
            lemma_braces_end(
                src,
                if from + 2 <= src.len() {
                    from + 2
                } else {
                    src.len() as int
                },
                depth,
            );
        } else if src[from] == '{' {
            lemma_braces_end(src, from + 1, depth + 1);
        } else if src[from] == '}' {
            if depth > 0 {
                lemma_braces_end(src, from + 1, (depth - 1) as nat);
            }
        } else {
            lemma_braces_end(src, from + 1, depth);
        }
    }
}

/// `later` goes on where `m` was: further on, with more text and more places.
pub open spec fn goes_on(src: Seq<char>, m: Progress, later: Progress) -> bool {
    &&& m.offset <= later.offset <= src.len()
    &&& m.text.is_prefix_of(later.text)
    &&& m.ranges.is_prefix_of(later.ranges)
    &&& forall|i: int|
        #![trigger later.ranges[i]]
        m.ranges.len() <= i < later.ranges.len() ==> chars::byte_len(m.text) <= later.ranges[i].1
            <= later.ranges[i].2 <= chars::byte_len(later.text) && is_place(
            later.text,
            later.ranges[i].1,
        ) && is_place(later.text, later.ranges[i].2)
}

/// Whether a byte offset lies between characters of the text.
pub open spec fn is_place(text: Seq<char>, o: int) -> bool {
    exists|k: int| 0 <= k <= text.len() && o == #[trigger] chars::byte_len(text.take(k))
}

proof fn lemma_place_kept(a: Seq<char>, b: Seq<char>, o: int)
    requires
        a.is_prefix_of(b),
        is_place(a, o),
    ensures
        is_place(b, o),
{
    let k = choose|k: int| 0 <= k <= a.len() && o == #[trigger] chars::byte_len(a.take(k));
    assert(b.take(k) =~= a.take(k));
    assert(o == chars::byte_len(b.take(k)));
}

pub(crate) proof fn lemma_place_behind(a: Seq<char>, b: Seq<char>)
    requires
        a.is_prefix_of(b),
    ensures
        is_place(b, chars::byte_len(a)),
{
    assert(b.take(a.len() as int) =~= a);
    assert(chars::byte_len(a) == chars::byte_len(b.take(a.len() as int)));
}

proof fn lemma_byte_len_prefix(a: Seq<char>, b: Seq<char>)
    requires
        a.is_prefix_of(b),
    ensures
        chars::byte_len(a) <= chars::byte_len(b),
{
    chars::lemma_byte_len_split(b, a.len() as int);
    assert(b.take(a.len() as int) =~= a);
}

proof fn lemma_goes_on(src: Seq<char>, a: Progress, b: Progress, c: Progress)
    requires
        goes_on(src, a, b),
        goes_on(src, b, c),
    ensures
        goes_on(src, a, c),
{
    lemma_byte_len_prefix(a.text, b.text);
    lemma_byte_len_prefix(b.text, c.text);
    assert(a.text.is_prefix_of(c.text)) by {
        assert(c.text.take(b.text.len() as int) =~= b.text);
        assert(a.text =~= c.text.take(a.text.len() as int));
    }
    assert(a.ranges =~= c.ranges.take(a.ranges.len() as int));
    assert forall|i: int| #![trigger c.ranges[i]] a.ranges.len() <= i < c.ranges.len() implies chars::byte_len(
        a.text,
    ) <= c.ranges[i].1 <= c.ranges[i].2 <= chars::byte_len(c.text) && is_place(
        c.text,
        c.ranges[i].1,
    ) && is_place(c.text, c.ranges[i].2) by {
        if i < b.ranges.len() {
            assert(b.ranges[i] == c.ranges[i]);
            lemma_place_kept(b.text, c.text, c.ranges[i].1);
            lemma_place_kept(b.text, c.text, c.ranges[i].2);
        }
    }
}

proof fn lemma_more_text(a: Seq<char>, b: Seq<char>)
    ensures
        a.is_prefix_of(a + b),
        chars::byte_len(a) <= chars::byte_len(a + b),
{
    assert(a =~= (a + b).take(a.len() as int));
    lemma_byte_len_prefix(a, a + b);
}

/// Reading goes on.
pub proof fn lemma_read_until(
    src: Seq<char>,
    m: Progress,
    terminator: Option<char>,
    known: Option<Map<Seq<char>, Seq<char>>>,
)
    requires
        0 <= m.offset <= src.len(),
    ensures
        goes_on(src, m, read_until(src, m, terminator, known)),
    decreases src.len() - m.offset, 1int,
{
    if m.offset < src.len() && terminator != Some(src[m.offset]) {
        let plain = read_plain(src, m);
        assert(plain.text =~= m.text + seq![src[m.offset]]);
        lemma_more_text(m.text, seq![src[m.offset]]);
        if src[m.offset] == '\\' {
            let next = read_escape(src, m);
            assert(next.text =~= m.text + seq![next.text.last()]);
            lemma_more_text(m.text, seq![next.text.last()]);
            lemma_read_until(src, next, terminator, known);
            lemma_goes_on(src, m, next, read_until(src, next, terminator, known));
        } else if src[m.offset] == '$' {
            lemma_read_dollar(src, m, known);
            match read_dollar(src, m, known) {
                Some(next) => {
                    lemma_read_until(src, next, terminator, known);
                    lemma_goes_on(src, m, next, read_until(src, next, terminator, known));
                },
                None => {
                    lemma_read_until(src, plain, terminator, known);
                    lemma_goes_on(src, m, plain, read_until(src, plain, terminator, known));
                },
            }
        } else {
            lemma_read_until(src, plain, terminator, known);
            lemma_goes_on(src, m, plain, read_until(src, plain, terminator, known));
        }
    }
}

proof fn lemma_with_tabstop(src: Seq<char>, m: Progress, index: u32)
    requires
        0 <= m.offset <= src.len(),
    ensures
        goes_on(src, m, with_tabstop(m, index)),
{
    let value = match default_of(m.defaults, index, 0) {
        Some(value) => value,
        None => Seq::empty(),
    };
    lemma_more_text(m.text, value);
    let later = with_tabstop(m, index);
    lemma_place_behind(m.text, later.text);
    lemma_place_behind(later.text, later.text);
    assert(m.ranges =~= later.ranges.take(m.ranges.len() as int));
}

proof fn lemma_with_default(src: Seq<char>, m: Progress, inner: Progress, index: u32)
    requires
        goes_on(src, m, inner),
    ensures
        goes_on(src, m, with_default(inner, index, m.text)),
{
    let later = with_default(inner, index, m.text);
    lemma_byte_len_prefix(m.text, inner.text);
    lemma_place_behind(m.text, later.text);
    lemma_place_behind(later.text, later.text);
    assert(m.ranges =~= later.ranges.take(m.ranges.len() as int));
    assert forall|i: int| #![trigger later.ranges[i]] m.ranges.len() <= i < later.ranges.len() implies chars::byte_len(
        m.text,
    ) <= later.ranges[i].1 <= later.ranges[i].2 <= chars::byte_len(later.text) && is_place(
        later.text,
        later.ranges[i].1,
    ) && is_place(later.text, later.ranges[i].2) by {
        if i < inner.ranges.len() {
            assert(later.ranges[i] == inner.ranges[i]);
        }
    }
}

proof fn lemma_read_transform(
    src: Seq<char>,
    m: Progress,
    known: Option<Map<Seq<char>, Seq<char>>>,
    name: Seq<char>,
    at: int,
)
    requires
        0 <= m.offset <= at,
    ensures
        read_transform(src, m, known, name, at) matches Some(next) ==> at < next.offset && goes_on(
            src,
            m,
            next,
        ),
{
    snippet_transform::lemma_transform_ends(src, at + 1);
    match read_transform(src, m, known, name, at) {
        Some(next) => {
            let value = next.text.skip(m.text.len() as int);
            assert(next.text =~= m.text + value);
            lemma_more_text(m.text, value);
        },
        None => {},
    }
}

pub proof fn lemma_read_dollar(
    src: Seq<char>,
    m: Progress,
    known: Option<Map<Seq<char>, Seq<char>>>,
)
    requires
        0 <= m.offset < src.len(),
    ensures
        read_dollar(src, m, known) matches Some(next) ==> m.offset < next.offset && goes_on(src, m, next),
    decreases src.len() - m.offset, 0int,
{
    let p = m.offset + 1;
    if p < src.len() && src[p] == '{' {
        lemma_digits_end(src, p + 1);
        let d = digits_end(src, p + 1);
        lemma_name_end(src, d);
        let n = name_end(src, d);
        if d > p + 1 && number(src, p + 1, d) <= u32::MAX {
            let index = number(src, p + 1, d) as u32;
            if d < src.len() {
                let next = Progress { offset: d + 1, ..m };
                assert(m.text.is_prefix_of(m.text));
                if src[d] == '}' {
                    lemma_with_tabstop(src, next, index);
                } else if src[d] == ':' {
                    lemma_read_until(src, next, Some('}'), known);
                    lemma_with_default(src, next, read_until(src, next, Some('}'), known), index);
                } else if src[d] == '|' {
                    lemma_choice_end(src, d + 1, false);
                    match choice_end(src, d + 1, false) {
                        Some(e) => {
                            let first = first_choice(src.subrange(d + 1, e), 0, false);
                            lemma_more_text(m.text, first);
                            let inner = Progress { offset: e + 2, text: m.text + first, ..m };
                            assert(goes_on(src, next, inner));
                            lemma_with_default(src, next, inner, index);
                        },
                        None => {},
                    }
                }
            }
        } else if n > d && n < src.len() {
            let name = src.subrange(d, n);
            if src[n] == '}' {
                lemma_more_text(m.text, value_or_name(known, name));
            } else if src[n] == '/' {
                lemma_read_transform(src, m, known, name, n);
            } else if src[n] == ':' {
                match value_of(known, name) {
                    Some(value) => {
                        lemma_more_text(m.text, value);
                        lemma_braces_end(src, n + 1, 0);
                    },
                    None => {
                        lemma_read_until(src, Progress { offset: n + 1, ..m }, Some('}'), known);
                    },
                }
            }
        }
    } else {
        lemma_digits_end(src, p);
        let d = digits_end(src, p);
        lemma_name_end(src, d);
        let n = name_end(src, d);
        if d > p && number(src, p, d) <= u32::MAX {
            lemma_with_tabstop(
                src,
                Progress { offset: d, ..m },
                number(src, p, d) as u32,
            );
        } else if n > d {
            lemma_more_text(m.text, value_or_name(known, src.subrange(d, n)));
        }
    }
}

/// Every place of a tab stop is a range of the text, on boundaries.
pub proof fn law_places_lie_in_the_text(
    src: Seq<char>,
    known: Option<Map<Seq<char>, Seq<char>>>,
)
    ensures
        ({
            let read = read_until(src, unread(), None, known);
            let t = encode_utf8(read.text);
            forall|i: int|
                #![trigger read.ranges[i]]
                0 <= i < read.ranges.len() ==> 0 <= read.ranges[i].1 <= read.ranges[i].2 <= t.len()
                    && text::is_boundary(t, read.ranges[i].1) && text::is_boundary(
                    t,
                    read.ranges[i].2,
                )
        }),
{
    let read = read_until(src, unread(), None, known);
    let t = encode_utf8(read.text);
    lemma_read_until(src, unread(), None, known);
    chars::lemma_byte_len_empty();
    assert forall|i: int| #![trigger read.ranges[i]] 0 <= i < read.ranges.len() implies 0
        <= read.ranges[i].1 <= read.ranges[i].2 <= t.len() && text::is_boundary(
        t,
        read.ranges[i].1,
    ) && text::is_boundary(t, read.ranges[i].2) by {
        lemma_place_is_boundary(read.text, read.ranges[i].1);
        lemma_place_is_boundary(read.text, read.ranges[i].2);
    }
}

pub(crate) proof fn lemma_place_is_boundary(text: Seq<char>, o: int)
    requires
        is_place(text, o),
    ensures
        0 <= o <= chars::byte_len(text),
        text::is_boundary(encode_utf8(text), o),
{
    let k = choose|k: int| 0 <= k <= text.len() && o == #[trigger] chars::byte_len(text.take(k));
    let rest = text.skip(k);
    chars::lemma_byte_len_split(text, k);
    assert(text =~= text.take(k) + rest);
    text::lemma_encode_concat(text.take(k), rest);
    if rest.len() > 0 && o < chars::byte_len(text) {
        encode_utf8_first_scalar(rest);
        assert(encode_utf8(text)[o] == encode_utf8(rest)[0]);
    }
}

/// A snippet without a dollar sign and a backslash is its own text and has no
/// tab stops.
pub proof fn law_plain_snippet(src: Seq<char>, known: Option<Map<Seq<char>, Seq<char>>>)
    requires
        !src.contains('$'),
        !src.contains('\\'),
    ensures
        read_until(src, unread(), None, known).text == src,
        read_until(src, unread(), None, known).ranges.len() == 0,
        grouped(read_until(src, unread(), None, known).ranges).len() == 0,
{
    lemma_plain(src, unread(), known);
    assert(src.skip(0) =~= src);
    assert(Seq::<char>::empty() + src =~= src);
}

proof fn lemma_plain(src: Seq<char>, m: Progress, known: Option<Map<Seq<char>, Seq<char>>>)
    requires
        !src.contains('$'),
        !src.contains('\\'),
        0 <= m.offset <= src.len(),
    ensures
        read_until(src, m, None, known).text == m.text + src.skip(m.offset),
        read_until(src, m, None, known).ranges == m.ranges,
    decreases src.len() - m.offset,
{
    if m.offset < src.len() {
        assert(src.contains(src[m.offset]));
        lemma_plain(src, read_plain(src, m), known);
        assert(m.text + src.skip(m.offset) =~= m.text.push(src[m.offset]) + src.skip(
            m.offset + 1,
        ));
    } else {
        assert(m.text + src.skip(m.offset) =~= m.text);
    }
}

/// Reads a snippet.
struct Parser<'a> {
    source: Vec<char>,
    variables: Option<&'a SnippetVariables>,
    offset: usize,
    text: String,
    ranges: Vec<(u32, usize, usize)>,
    defaults: Vec<(u32, String)>,
}

spec fn log_view(ranges: Seq<(u32, usize, usize)>) -> Seq<(u32, int, int)> {
    Seq::new(ranges.len(), |i: int| (ranges[i].0, ranges[i].1 as int, ranges[i].2 as int))
}

spec fn defaults_view(defaults: Seq<(u32, String)>) -> Seq<(u32, Seq<char>)> {
    Seq::new(defaults.len(), |i: int| (defaults[i].0, defaults[i].1@))
}

fn check_digit(c: char) -> (digit: bool)
    ensures
        digit == is_digit(c),
{
    '0' <= c && c <= '9'
}

fn check_name_character(c: char) -> (name: bool)
    ensures
        name == is_name_character(c),
{
    check_digit(c) || ('a' <= c && c <= 'z') || ('A' <= c && c <= 'Z') || c == '_'
}

fn find_variable(name: &str) -> (value: Option<&'static str>)
    ensures
        match value {
            Some(value) => variable(name@) == Some(value@),
            None => variable(name@) is None,
        },
{
    if chars::same_text(name, "TM_SELECTED_TEXT") || chars::same_text(name, "CLIPBOARD") {
        proof {
            reveal_strlit("");
            assert(""@ =~= Seq::<char>::empty());
        }
        Some("")
    } else {
        None
    }
}

proof fn lemma_number_grows(src: Seq<char>, from: int, a: int, b: int)
    requires
        from <= a <= b,
        forall|i: int| from <= i < b ==> is_digit(#[trigger] src[i]),
    ensures
        0 <= number(src, from, a) <= number(src, from, b),
    decreases b - from,
{
    if b > from {
        assert(is_digit(src[b - 1]));
        if a < b {
            lemma_number_grows(src, from, a, b - 1);
        } else {
            lemma_number_grows(src, from, a - 1, b - 1);
        }
    }
}

proof fn lemma_digits(src: Seq<char>, from: int)
    requires
        0 <= from <= src.len(),
    ensures
        forall|i: int| from <= i < digits_end(src, from) ==> is_digit(#[trigger] src[i]),
    decreases src.len() - from,
{
    if from < src.len() && is_digit(src[from]) {
        lemma_digits(src, from + 1);
    }
}

/// What the first of the choices reads.
fn read_first_choice(raw: &[char]) -> (first: String)
    ensures
        first@ == first_choice(raw@, 0, false),
{
    let mut first = String::new();
    let mut escaped = false;
    let mut i: usize = 0;
    assert(first@ + first_choice(raw@, 0, false) =~= first_choice(raw@, 0, false));
    while i < raw.len()
        invariant
            i <= raw@.len(),
            first@ + first_choice(raw@, i as int, escaped) == first_choice(raw@, 0, false),
        decreases raw.len() - i,
    {
        let c = raw[i];
        let ghost before = first@;
        if escaped {
            chars::push_char(&mut first, c);
            escaped = false;
            assert(first@ + first_choice(raw@, i + 1, false) =~= before + (seq![c] + first_choice(
                raw@,
                i + 1,
                false,
            )));
        } else if c == '\\' {
            escaped = true;
        } else if c == ',' {
            assert(first@ + Seq::<char>::empty() =~= first@);
            return first;
        } else {
            chars::push_char(&mut first, c);
            assert(first@ + first_choice(raw@, i + 1, false) =~= before + (seq![c] + first_choice(
                raw@,
                i + 1,
                false,
            )));
        }
        i = i + 1;
    }
    let ghost before = first@;
    if escaped {
        chars::push_char(&mut first, '\\');
        assert(first@ =~= before + seq!['\\']);
    } else {
        assert(before + Seq::<char>::empty() =~= before);
    }
    first
}

impl<'a> Parser<'a> {
    spec fn src(&self) -> Seq<char> {
        self.source@
    }

    spec fn known(&self) -> Option<Map<Seq<char>, Seq<char>>> {
        match self.variables {
            Some(variables) => Some(variables@),
            None => None,
        }
    }

    spec fn progress(&self) -> Progress {
        Progress {
            offset: self.offset as int,
            text: self.text@,
            ranges: log_view(self.ranges@),
            defaults: defaults_view(self.defaults@),
        }
    }

    fn find_digits_end(&self, from: usize) -> (end: usize)
        requires
            from <= self.src().len(),
        ensures
            end == digits_end(self.src(), from as int),
            from <= end <= self.src().len(),
    {
        let mut end: usize = from;
        while end < self.source.len() && check_digit(self.source[end])
            invariant
                from <= end <= self.src().len(),
                digits_end(self.src(), from as int) == digits_end(self.src(), end as int),
            decreases self.source.len() - end,
        {
            end = end + 1;
        }
        end
    }

    fn find_name_end(&self, from: usize) -> (end: usize)
        requires
            from <= self.src().len(),
        ensures
            end == name_end(self.src(), from as int),
            from <= end <= self.src().len(),
    {
        let mut end: usize = from;
        while end < self.source.len() && check_name_character(self.source[end])
            invariant
                from <= end <= self.src().len(),
                name_end(self.src(), from as int) == name_end(self.src(), end as int),
            decreases self.source.len() - end,
        {
            end = end + 1;
        }
        end
    }

    /// The number that the digits write, where there are any and it is not too big.
    fn read_number(&self, from: usize, to: usize) -> (index: Option<u32>)
        requires
            from <= to <= self.src().len(),
            to == digits_end(self.src(), from as int),
        ensures
            match index {
                Some(index) => to > from && number(self.src(), from as int, to as int) == index,
                None => !(to > from && number(self.src(), from as int, to as int) <= u32::MAX),
            },
    {
        let ghost src = self.src();
        proof {
            lemma_digits(src, from as int);
        }
        if to == from {
            return None;
        }
        let mut value: u64 = 0;
        let mut i: usize = from;
        while i < to
            invariant
                from <= i <= to <= src.len(),
                src == self.src(),
                forall|k: int| from <= k < to ==> is_digit(#[trigger] src[k]),
                value <= u32::MAX,
                value == number(src, from as int, i as int),
            decreases to - i,
        {
            assert(is_digit(src[i as int]));
            let digit: u64 = (self.source[i] as u32 - '0' as u32) as u64;
            value = value * 10 + digit;
            i = i + 1;
            if value > 0xffff_ffff {
                proof {
                    lemma_number_grows(src, from as int, i as int, to as int);
                }
                return None;
            }
        }
        Some(value as u32)
    }

    fn slice_source(&self, from: usize, to: usize) -> (part: String)
        requires
            from <= to <= self.src().len(),
        ensures
            part@ == self.src().subrange(from as int, to as int),
    {
        let mut part = String::new();
        let mut i: usize = from;
        while i < to
            invariant
                from <= i <= to <= self.src().len(),
                part@ == self.src().subrange(from as int, i as int),
            decreases to - i,
        {
            chars::push_char(&mut part, self.source[i]);
            assert(part@ =~= self.src().subrange(from as int, i + 1));
            i = i + 1;
        }
        part
    }

    fn push(&mut self, part: &str)
        ensures
            final(self).src() == old(self).src(),
            final(self).known() == old(self).known(),
            final(self).progress() == (Progress {
                text: old(self).text@ + part@,
                ..old(self).progress()
            }),
    {
        text::push_text(&mut self.text, part);
    }

    fn insert_tabstop(&mut self, index: u32)
        ensures
            final(self).src() == old(self).src(),
            final(self).known() == old(self).known(),
            final(self).progress() == with_tabstop(old(self).progress(), index),
    {
        let ghost before = self.progress();
        let start: usize = self.text.as_str().as_bytes().len();
        let mut i: usize = 0;
        while i < self.defaults.len() && self.defaults[i].0 != index
            invariant
                i <= self.defaults@.len(),
                *self == *old(self),
                before == self.progress(),
                default_of(before.defaults, index, 0) == default_of(
                    before.defaults,
                    index,
                    i as int,
                ),
            decreases self.defaults.len() - i,
        {
            assert(before.defaults[i as int].0 == self.defaults@[i as int].0);
            i = i + 1;
        }
        if i < self.defaults.len() {
            assert(before.defaults[i as int] == (
                self.defaults@[i as int].0,
                self.defaults@[i as int].1@,
            ));
            let value = self.defaults[i].1.clone();
            self.push(value.as_str());
        } else {
            assert(before.text + Seq::<char>::empty() =~= before.text);
        }
        let end: usize = self.text.as_str().as_bytes().len();
        let ghost held = self.ranges@;
        self.ranges.push((index, start, end));
        assert(log_view(self.ranges@) =~= log_view(held).push((index, start as int, end as int)));
    }

    /// Notes a tab stop whose default is what the text holds from `start` on.
    fn note_default(&mut self, index: u32, start: usize, Ghost(text): Ghost<Seq<char>>)
        requires
            text.is_prefix_of(old(self).text@),
            start == chars::byte_len(text),
        ensures
            final(self).src() == old(self).src(),
            final(self).known() == old(self).known(),
            final(self).progress() == with_default(old(self).progress(), index, text),
    {
        let end: usize = self.text.as_str().as_bytes().len();
        proof {
            let t = encode_utf8(self.text@);
            let rest = self.text@.skip(text.len() as int);
            assert(self.text@ =~= text + rest);
            text::lemma_encode_concat(text, rest);
            encode_utf8_valid_utf8(rest);
            encode_utf8_valid_utf8(self.text@);
            if rest.len() > 0 && start < t.len() {
                assert(t[start as int] == encode_utf8(rest)[0]);
                assert(valid_first_scalar(encode_utf8(rest)));
            }
            assert(text::is_boundary(t, start as int));
            assert(t.subrange(start as int, t.len() as int) =~= encode_utf8(rest));
        }
        let value = text::slice_text(self.text.as_str(), start, end);
        proof {
            encode_utf8_decode_utf8(value@);
            encode_utf8_decode_utf8(self.text@.skip(text.len() as int));
        }
        let ghost held = self.defaults@;
        self.defaults.push((index, value));
        assert(defaults_view(self.defaults@) =~= defaults_view(held).push((index, value@)));
        let ghost noted = self.ranges@;
        self.ranges.push((index, start, end));
        assert(log_view(self.ranges@) =~= log_view(noted).push((index, start as int, end as int)));
    }

    fn push_source_char(&mut self)
        requires
            old(self).offset < old(self).src().len(),
        ensures
            final(self).src() == old(self).src(),
            final(self).known() == old(self).known(),
            final(self).progress() == read_plain(old(self).src(), old(self).progress()),
    {
        assert(self.source.len() == self.source@.len());
        let c = self.source[self.offset];
        chars::push_char(&mut self.text, c);
        self.offset = self.offset + 1;
    }

    fn parse_escape(&mut self)
        requires
            old(self).offset < old(self).src().len(),
        ensures
            final(self).src() == old(self).src(),
            final(self).known() == old(self).known(),
            final(self).progress() == read_escape(old(self).src(), old(self).progress()),
    {
        assert(self.source.len() == self.source@.len());
        self.offset = self.offset + 1;
        if self.offset < self.source.len() {
            let c = self.source[self.offset];
            if c == '\\' || c == '$' || c == '}' || c == ',' || c == '|' {
                chars::push_char(&mut self.text, c);
                self.offset = self.offset + 1;
                return;
            }
        }
        chars::push_char(&mut self.text, '\\');
    }

    fn parse_until(&mut self, terminator: Option<char>)
        requires
            old(self).offset <= old(self).src().len(),
        ensures
            final(self).src() == old(self).src(),
            final(self).known() == old(self).known(),
            final(self).progress() == read_until(
                old(self).src(),
                old(self).progress(),
                terminator,
                old(self).known(),
            ),
            final(self).offset <= final(self).src().len(),
        decreases old(self).src().len() - old(self).offset, 1int,
    {
        let ghost src = self.src();
        let ghost start = self.progress();
        let ghost known = self.known();
        while self.offset < self.source.len()
            invariant
                self.src() == src,
                self.known() == known,
                known == old(self).known(),
                src == old(self).src(),
                start == old(self).progress(),
                old(self).offset <= self.offset <= src.len(),
                read_until(src, start, terminator, known) == read_until(
                    src,
                    self.progress(),
                    terminator,
                    known,
                ),
            decreases src.len() - self.offset,
        {
            let ghost m = self.progress();
            let c = self.source[self.offset];
            let stop = match terminator {
                Some(end) => c == end,
                None => false,
            };
            if stop {
                self.offset = self.offset + 1;
                return;
            }
            if c == '\\' {
                self.parse_escape();
            } else if c == '$' {
                proof {
                    lemma_read_dollar(src, m, known);
                }
                if !self.parse_dollar() {
                    self.push_source_char();
                }
            } else {
                self.push_source_char();
            }
        }
    }

    fn parse_dollar(&mut self) -> (parsed: bool)
        requires
            old(self).offset < old(self).src().len(),
        ensures
            final(self).src() == old(self).src(),
            final(self).known() == old(self).known(),
            match read_dollar(old(self).src(), old(self).progress(), old(self).known()) {
                Some(next) => parsed && final(self).progress() == next,
                None => !parsed && *final(self) == *old(self),
            },
            final(self).offset <= final(self).src().len(),
        decreases old(self).src().len() - old(self).offset, 0int,
    {
        let ghost src = self.src();
        let ghost m = self.progress();
        let ghost known = self.known();
        let start: usize = self.offset;
        proof {
            lemma_read_dollar(src, m, known);
        }
        assert(self.source.len() == self.source@.len());
        let p: usize = start + 1;
        if p < self.source.len() && self.source[p] == '{' {
            let digits: usize = self.find_digits_end(p + 1);
            let index = self.read_number(p + 1, digits);
            if let Some(index) = index {
                return self.parse_braced_tabstop(index, digits);
            }
            let name: usize = self.find_name_end(digits);
            if name > digits {
                return self.parse_braced_variable(digits, name);
            }
            return false;
        }
        let digits: usize = self.find_digits_end(p);
        let index = self.read_number(p, digits);
        if let Some(index) = index {
            self.offset = digits;
            self.insert_tabstop(index);
            return true;
        }
        let name: usize = self.find_name_end(digits);
        if name > digits {
            let text = self.slice_source(digits, name);
            self.offset = name;
            let value = self.find_value_or_name(text.as_str());
            self.push(value.as_str());
            return true;
        }
        false
    }

    fn parse_braced_tabstop(&mut self, index: u32, at: usize) -> (parsed: bool)
        requires
            old(self).offset + 2 < at <= old(self).src().len(),
            old(self).src()[old(self).offset + 1] == '{',
            at == digits_end(old(self).src(), old(self).offset + 2),
            number(old(self).src(), old(self).offset + 2, at as int) == index,
        ensures
            final(self).src() == old(self).src(),
            final(self).known() == old(self).known(),
            match read_dollar(old(self).src(), old(self).progress(), old(self).known()) {
                Some(next) => parsed && final(self).progress() == next,
                None => !parsed && *final(self) == *old(self),
            },
            final(self).offset <= final(self).src().len(),
        decreases old(self).src().len() - old(self).offset - 1, 2int,
    {
        let ghost src = self.src();
        let ghost m = self.progress();
        let ghost known = self.known();
        proof {
            lemma_read_dollar(src, m, known);
        }
        if at >= self.source.len() {
            return false;
        }
        let c = self.source[at];
        let start: usize = self.text.as_str().as_bytes().len();
        if c == '}' {
            self.offset = at + 1;
            self.insert_tabstop(index);
            true
        } else if c == ':' {
            self.offset = at + 1;
            let ghost next = self.progress();
            proof {
                lemma_read_until(src, next, Some('}'), known);
            }
            self.parse_until(Some('}'));
            self.note_default(index, start, Ghost(m.text));
            true
        } else if c == '|' {
            self.parse_choice(index, at)
        } else {
            false
        }
    }

    fn parse_choice(&mut self, index: u32, at: usize) -> (parsed: bool)
        requires
            old(self).offset < at < old(self).src().len(),
        ensures
            final(self).src() == old(self).src(),
            final(self).known() == old(self).known(),
            match choice_end(old(self).src(), at + 1, false) {
                Some(e) => parsed && final(self).progress() == with_default(
                    Progress {
                        offset: e + 2,
                        text: old(self).text@ + first_choice(
                            old(self).src().subrange(at + 1, e),
                            0,
                            false,
                        ),
                        ..old(self).progress()
                    },
                    index,
                    old(self).text@,
                ) && e + 2 <= old(self).src().len(),
                None => !parsed && *final(self) == *old(self),
            },
    {
        let ghost src = self.src();
        let ghost m = self.progress();
        let ghost known = self.known();
        let len: usize = self.source.len();
        let mut e: usize = at + 1;
        let mut escaped = false;
        proof {
            lemma_choice_end(src, at + 1, false);
        }
        while e < len && e + 1 < len
            invariant
                *self == *old(self),
                src == self.src(),
                m == self.progress(),
                len == src.len(),
                at < e <= len,
                choice_end(src, at + 1, false) == choice_end(src, e as int, escaped),
                choice_end(src, at + 1, false) matches Some(e) ==> e + 2 <= src.len(),
            decreases len - e,
        {
            let c = self.source[e];
            if escaped {
                escaped = false;
            } else if c == '\\' {
                escaped = true;
            } else if c == '|' && self.source[e + 1] == '}' {
                let raw = chars::slice_chars(&self.source, at + 1, e);
                let first = read_first_choice(raw.as_slice());
                let start: usize = self.text.as_str().as_bytes().len();
                self.push(first.as_str());
                self.offset = e + 2;
                proof {
                    lemma_more_text(m.text, first@);
                }
                self.note_default(index, start, Ghost(m.text));
                return true;
            }
            e = e + 1;
        }
        false
    }

    fn parse_braced_variable(&mut self, from: usize, at: usize) -> (parsed: bool)
        requires
            old(self).offset + 2 <= from < at <= old(self).src().len(),
            old(self).src()[old(self).offset + 1] == '{',
            from == digits_end(old(self).src(), old(self).offset + 2),
            at == name_end(old(self).src(), from as int),
            !(from > old(self).offset + 2 && number(
                old(self).src(),
                old(self).offset + 2,
                from as int,
            ) <= u32::MAX),
        ensures
            final(self).src() == old(self).src(),
            final(self).known() == old(self).known(),
            match read_dollar(old(self).src(), old(self).progress(), old(self).known()) {
                Some(next) => parsed && final(self).progress() == next,
                None => !parsed && *final(self) == *old(self),
            },
            final(self).offset <= final(self).src().len(),
        decreases old(self).src().len() - old(self).offset - 1, 2int,
    {
        let ghost src = self.src();
        let ghost m = self.progress();
        let ghost known = self.known();
        proof {
            lemma_read_dollar(src, m, known);
        }
        if at >= self.source.len() {
            return false;
        }
        let c = self.source[at];
        if c != '}' && c != ':' && c != '/' {
            return false;
        }
        let name = self.slice_source(from, at);
        if c == '/' {
            return self.parse_transform(name.as_str(), at);
        }
        self.offset = at + 1;
        if c == '}' {
            let value = self.find_value_or_name(name.as_str());
            self.push(value.as_str());
            return true;
        }
        match self.find_value(name.as_str()) {
            Some(value) => {
                self.push(value.as_str());
                self.skip_balanced_braces();
            },
            None => {
                self.parse_until(Some('}'));
            },
        }
        true
    }

    fn find_value(&self, name: &str) -> (value: Option<String>)
        ensures
            match value {
                Some(value) => value_of(self.known(), name@) == Some(value@),
                None => value_of(self.known(), name@) is None,
            },
    {
        match self.variables {
            Some(variables) => match variables.resolve(name) {
                Some(value) => Some(value.to_owned()),
                None => None,
            },
            None => match find_variable(name) {
                Some(value) => Some(value.to_owned()),
                None => None,
            },
        }
    }

    fn find_value_or_name(&self, name: &str) -> (value: String)
        ensures
            value@ == value_or_name(self.known(), name@),
    {
        match self.find_value(name) {
            Some(value) => value,
            None => match find_variable(name) {
                Some(value) => value.to_owned(),
                None => name.to_owned(),
            },
        }
    }

    /// Reads a transformation of a variable.
    fn parse_transform(&mut self, name: &str, at: usize) -> (parsed: bool)
        requires
            at < old(self).src().len(),
        ensures
            final(self).src() == old(self).src(),
            final(self).known() == old(self).known(),
            match read_transform(
                old(self).src(),
                old(self).progress(),
                old(self).known(),
                name@,
                at as int,
            ) {
                Some(next) => parsed && final(self).progress() == next && final(self).offset
                    <= old(self).src().len(),
                None => !parsed && *final(self) == *old(self),
            },
    {
        let variables = match self.variables {
            Some(variables) => variables,
            None => {
                return false;
            },
        };
        assert(self.source.len() == self.source@.len());
        let (a, b, c) = match snippet_transform::find_transform_ends(&self.source, at + 1) {
            Some(ends) => ends,
            None => {
                return false;
            },
        };
        let pattern = self.slice_source(at + 1, a);
        let format = self.slice_source(a + 1, b);
        let options = self.slice_source(b + 1, c);
        let value = match variables.resolve(name) {
            Some(value) => value.to_owned(),
            None => String::new(),
        };
        assert(transformed_value(
            variables@,
            name@,
            pattern@,
            format@,
            options@,
        ) == snippet_transform::transform_result(pattern@, format@, options@, value@)) by {
            if !variables@.dom().contains(name@) {
                assert(value@ =~= Seq::<char>::empty());
            }
        }
        match snippet_transform::transform_value(
            pattern.as_str(),
            format.as_str(),
            options.as_str(),
            value.as_str(),
        ) {
            Some(result) => {
                self.push(result.as_str());
                assert(self.source.len() == self.source@.len());
                self.offset = c + 1;
                true
            },
            None => false,
        }
    }

    fn skip_balanced_braces(&mut self)
        requires
            old(self).offset <= old(self).src().len(),
        ensures
            final(self).src() == old(self).src(),
            final(self).known() == old(self).known(),
            final(self).progress() == (Progress {
                offset: braces_end(old(self).src(), old(self).offset as int, 0),
                ..old(self).progress()
            }),
            final(self).offset <= final(self).src().len(),
    {
        let ghost src = self.src();
        let mut depth: usize = 0;
        let mut at: usize = self.offset;
        while at < self.source.len()
            invariant
                *self == *old(self),
                src == self.src(),
                at <= src.len(),
                depth <= at,
                braces_end(src, self.offset as int, 0) == braces_end(src, at as int, depth as nat),
            decreases src.len() - at,
        {
            let c = self.source[at];
            if c == '\\' {
                at = if self.source.len() - at >= 2 {
                    at + 2
                } else {
                    self.source.len()
                };
            } else if c == '{' {
                depth = depth + 1;
                at = at + 1;
            } else if c == '}' {
                if depth == 0 {
                    self.offset = at + 1;
                    return;
                }
                depth = depth - 1;
                at = at + 1;
            } else {
                at = at + 1;
            }
        }
        self.offset = at;
    }
}

fn key_of(index: u32) -> (key: usize)
    ensures
        key == visit_key(index),
{
    if index == 0 {
        0xffff_ffff
    } else {
        (index - 1) as usize
    }
}

/// The tab stops in the order in which they are visited.
fn group_tabstops(ranges: &Vec<(u32, usize, usize)>) -> (tabstops: Vec<SnippetTabstop>)
    ensures
        tabstops_view(tabstops@) == grouped(log_view(ranges@)),
{
    let ghost log = log_view(ranges@);
    let mut keys: Vec<usize> = Vec::new();
    let mut n: usize = 0;
    assert(order::indices_view(keys@) =~= visit_keys(log, 0));
    while n < ranges.len()
        invariant
            n <= ranges@.len(),
            log == log_view(ranges@),
            order::is_ascending(order::indices_view(keys@)),
            order::indices_view(keys@) == visit_keys(log, n as int),
            forall|k: int| 0 <= k < keys@.len() ==> #[trigger] keys@[k] <= u32::MAX,
        decreases ranges.len() - n,
    {
        let key: usize = key_of(ranges[n].0);
        assert(log[n as int].0 == ranges@[n as int].0);
        let ghost before = keys@;
        order::insert_key(&mut keys, key);
        proof {
            let kv = order::indices_view(keys@);
            assert forall|k: int| 0 <= k < keys@.len() implies #[trigger] keys@[k] <= u32::MAX by {
                assert(kv[k] == keys@[k]);
                assert(kv.contains(kv[k]));
                if kv[k] != key {
                    assert(order::indices_view(before).contains(kv[k]));
                    let j = choose|j: int|
                        0 <= j < order::indices_view(before).len() && order::indices_view(
                            before,
                        )[j] == kv[k];
                    assert(before[j] == kv[k]);
                }
            }
        }
        n = n + 1;
    }
    let ghost kv = order::indices_view(keys@);
    let ghost expected = grouped(log);
    let mut tabstops: Vec<SnippetTabstop> = Vec::new();
    while tabstops.len() < keys.len()
        invariant
            tabstops@.len() <= keys@.len(),
            log == log_view(ranges@),
            kv == order::indices_view(keys@),
            kv == visit_keys(log, log.len() as int),
            expected == grouped(log),
            forall|k: int| 0 <= k < keys@.len() ==> #[trigger] keys@[k] <= u32::MAX,
            forall|k: int|
                0 <= k < tabstops@.len() ==> ((#[trigger] tabstops@[k]).index, text::ranges_view(
                    tabstops@[k].ranges@,
                )) == expected[k],
        decreases keys.len() - tabstops.len(),
    {
        let at: usize = tabstops.len();
        let key: usize = keys[at];
        assert(kv[at as int] == key);
        let index: u32 = if key == 0xffff_ffff {
            0
        } else {
            key as u32 + 1
        };
        let mut places: Vec<Range<usize>> = Vec::new();
        let mut i: usize = 0;
        assert(text::ranges_view(places@) =~= places_of(log, key as int, 0));
        while i < ranges.len()
            invariant
                i <= ranges@.len(),
                log == log_view(ranges@),
                text::ranges_view(places@) == places_of(log, key as int, i as int),
            decreases ranges.len() - i,
        {
            let place = ranges[i];
            assert(log[i as int] == (place.0, place.1 as int, place.2 as int));
            if key_of(place.0) == key {
                let ghost held = places@;
                places.push(place.1..place.2);
                assert(text::ranges_view(places@) =~= text::ranges_view(held).push(
                    (place.1 as int, place.2 as int),
                ));
            }
            i = i + 1;
        }
        tabstops.push(SnippetTabstop { index, ranges: places });
        assert(expected[at as int] == (index_of_key(kv[at as int]), places_of(
            log,
            kv[at as int],
            log.len() as int,
        )));
    }
    assert(tabstops_view(tabstops@) =~= expected);
    tabstops
}

fn parse_source(source: &str, variables: Option<&SnippetVariables>) -> (parsed: ParsedSnippet)
    ensures
        ({
            let known = match variables {
                Some(variables) => Some(variables@),
                None => None,
            };
            let read = read_until(source@, unread(), None, known);
            &&& parsed.text@ == read.text
            &&& tabstops_view(parsed.tabstops@) == grouped(read.ranges)
        }),
{
    let mut parser = Parser {
        source: chars::chars_of(source),
        variables,
        offset: 0,
        text: String::new(),
        ranges: Vec::new(),
        defaults: Vec::new(),
    };
    proof {
        assert(parser.progress().ranges =~= Seq::<(u32, int, int)>::empty());
        assert(parser.progress().defaults =~= Seq::<(u32, Seq<char>)>::empty());
        assert(parser.progress().text =~= Seq::<char>::empty());
    }
    parser.parse_until(None);
    let tabstops = group_tabstops(&parser.ranges);
    ParsedSnippet { text: parser.text, tabstops }
}

/// Reads the text and the tab stops of a snippet.
pub fn parse_snippet(source: &str) -> (parsed: ParsedSnippet)
    ensures
        parsed.text@ == read_snippet(source@).text,
        tabstops_view(parsed.tabstops@) == grouped(read_snippet(source@).ranges),
{
    parse_source(source, None)
}

/// Reads the text and the tab stops of a snippet, with the values of variables. A
/// variable without a value reads its default where one is given, else nothing or
/// its name as it does without variables, and nothing in a transformation. What
/// is no transformation, since its pattern or its options are not known, stands as
/// it is written.
pub fn parse_snippet_with_variables(source: &str, variables: &SnippetVariables) -> (parsed:
    ParsedSnippet)
    ensures
        parsed.text@ == read_snippet_with(source@, variables@).text,
        tabstops_view(parsed.tabstops@) == grouped(read_snippet_with(source@, variables@).ranges),
{
    parse_source(source, Some(variables))
}

/// Every tab stop has a place.
pub proof fn law_every_stop_has_a_place(ranges: Seq<(u32, int, int)>)
    ensures
        forall|i: int|
            #![trigger grouped(ranges)[i]]
            0 <= i < grouped(ranges).len() ==> grouped(ranges)[i].1.len() > 0,
{
    let n = ranges.len() as int;
    let keys = visit_keys(ranges, n);
    assert forall|i: int| #![trigger grouped(ranges)[i]] 0 <= i < grouped(ranges).len() implies grouped(
        ranges,
    )[i].1.len() > 0 by {
        lemma_key_has_place(ranges, n, keys[i]);
    }
}

proof fn lemma_key_has_place(ranges: Seq<(u32, int, int)>, n: int, key: int)
    requires
        0 <= n <= ranges.len(),
        visit_keys(ranges, n).contains(key),
    ensures
        places_of(ranges, key, n).len() > 0,
    decreases n,
{
    if n > 0 {
        lemma_visit_keys(ranges, n - 1);
        let before = visit_keys(ranges, n - 1);
        order::lemma_with_key(before, visit_key(ranges[n - 1].0));
        if visit_key(ranges[n - 1].0) != key {
            assert(before.contains(key));
            lemma_key_has_place(ranges, n - 1, key);
        }
    }
}

/// Tab stops are visited in ascending order of their numbers, each once, and
/// tab stop 0 comes last.
pub proof fn law_final_tabstop_is_last(ranges: Seq<(u32, int, int)>)
    ensures
        forall|i: int, j: int|
            #![trigger grouped(ranges)[i], grouped(ranges)[j]]
            0 <= i < j < grouped(ranges).len() ==> grouped(ranges)[i].0 != 0 && (grouped(
                ranges,
            )[j].0 == 0 || grouped(ranges)[i].0 < grouped(ranges)[j].0),
{
    let n = ranges.len() as int;
    lemma_visit_keys(ranges, n);
    let keys = visit_keys(ranges, n);
    assert forall|i: int, j: int|
        #![trigger grouped(ranges)[i], grouped(ranges)[j]]
        0 <= i < j < grouped(ranges).len() implies grouped(ranges)[i].0 != 0 && (grouped(
        ranges,
    )[j].0 == 0 || grouped(ranges)[i].0 < grouped(ranges)[j].0) by {
        assert(0 <= keys[i] < keys[j] <= u32::MAX);
        assert(grouped(ranges)[i].0 == index_of_key(keys[i]));
        assert(grouped(ranges)[j].0 == index_of_key(keys[j]));
    }
}

proof fn lemma_visit_keys(ranges: Seq<(u32, int, int)>, n: int)
    requires
        0 <= n <= ranges.len(),
    ensures
        order::is_ascending(visit_keys(ranges, n)),
        forall|i: int|
            0 <= i < visit_keys(ranges, n).len() ==> 0 <= #[trigger] visit_keys(ranges, n)[i]
                <= u32::MAX,
    decreases n,
{
    if n > 0 {
        lemma_visit_keys(ranges, n - 1);
        let before = visit_keys(ranges, n - 1);
        let key = visit_key(ranges[n - 1].0);
        order::lemma_with_key(before, key);
        let after = visit_keys(ranges, n);
        assert forall|i: int| 0 <= i < after.len() implies 0 <= #[trigger] after[i] <= u32::MAX by {
            assert(after.contains(after[i]));
            if after[i] != key {
                let j = choose|j: int| 0 <= j < before.len() && before[j] == after[i];
                assert(before[j] <= u32::MAX);
            }
        }
    }
}

} // verus!

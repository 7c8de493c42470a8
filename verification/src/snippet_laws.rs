//! What the notation of snippets stands for.

use crate::order;
use crate::snippet;
use crate::snippet::Progress;
use crate::snippet_transform;
use vstd::prelude::*;
use vstd::utf8::*;

verus! {

/// The number that decimal digits write.
pub open spec fn decimal(w: Seq<char>) -> int
    decreases w.len(),
{
    if w.len() == 0 {
        0
    } else {
        10 * decimal(w.drop_last()) + (w.last() as int - 48)
    }
}

/// Digits that write the number of a tab stop.
pub open spec fn writes_index(w: Seq<char>, index: u32) -> bool {
    &&& w.len() > 0
    &&& forall|i: int| 0 <= i < w.len() ==> '0' <= #[trigger] w[i] && w[i] <= '9'
    &&& decimal(w) == index
}

/// A text in which nothing has a meaning.
pub open spec fn is_literal(s: Seq<char>) -> bool {
    forall|i: int| 0 <= i < s.len() ==> #[trigger] s[i] != '$' && s[i] != '\\'
}

/// The bytes that a text takes.
pub open spec fn size(s: Seq<char>) -> int {
    encode_utf8(s).len() as int
}

proof fn lemma_number(src: Seq<char>, from: int, to: int)
    requires
        0 <= from <= to <= src.len(),
    ensures
        snippet::number(src, from, to) == decimal(src.subrange(from, to)),
    decreases to - from,
{
    if from < to {
        lemma_number(src, from, to - 1);
        let w = src.subrange(from, to);
        assert(w.drop_last() =~= src.subrange(from, to - 1));
        assert(w.last() == src[to - 1]);
    }
}

proof fn lemma_digits(src: Seq<char>, from: int, to: int)
    requires
        0 <= from <= to <= src.len(),
        forall|i: int| from <= i < to ==> '0' <= #[trigger] src[i] && src[i] <= '9',
        to == src.len() || !('0' <= src[to] && src[to] <= '9'),
    ensures
        snippet::digits_end(src, from) == to,
    decreases to - from,
{
    if from < to {
        assert('0' <= src[from] && src[from] <= '9');
        lemma_digits(src, from + 1, to);
    }
}

proof fn lemma_index(src: Seq<char>, from: int, w: Seq<char>, index: u32)
    requires
        0 <= from,
        from + w.len() <= src.len(),
        src.subrange(from, from + w.len()) == w,
        writes_index(w, index),
        from + w.len() == src.len() || !('0' <= src[from + w.len()] && src[from + w.len()] <= '9'),
    ensures
        snippet::digits_end(src, from) == from + w.len(),
        snippet::number(src, from, from + w.len()) == index,
{
    let to = from + w.len();
    assert forall|i: int| from <= i < to implies '0' <= #[trigger] src[i] && src[i] <= '9' by {
        assert(w[i - from] == src[i]);
    }
    lemma_digits(src, from, to);
    lemma_number(src, from, to);
}

/// Literal text up to `to` is read as it stands.
proof fn lemma_literal(
    src: Seq<char>,
    m: Progress,
    terminator: Option<char>,
    known: Option<Map<Seq<char>, Seq<char>>>,
    to: int,
)
    requires
        0 <= m.offset <= to <= src.len(),
        forall|i: int|
            m.offset <= i < to ==> #[trigger] src[i] != '$' && src[i] != '\\' && terminator != Some(
                src[i],
            ),
    ensures
        snippet::read_until(src, m, terminator, known) == snippet::read_until(
            src,
            (Progress { offset: to, text: m.text + src.subrange(m.offset, to), ..m }),
            terminator,
            known,
        ),
    decreases to - m.offset,
{
    let then = Progress { offset: to, text: m.text + src.subrange(m.offset, to), ..m };
    if m.offset < to {
        let c = src[m.offset];
        assert(c != '$' && c != '\\' && terminator != Some(c));
        let next = snippet::read_plain(src, m);
        lemma_literal(src, next, terminator, known, to);
        assert(m.text.push(c) + src.subrange(m.offset + 1, to) =~= m.text + src.subrange(
            m.offset,
            to,
        ));
    } else {
        assert(then.text =~= m.text);
    }
}

/// The rest of a snippet, where it is literal.
proof fn lemma_rest(src: Seq<char>, m: Progress, known: Option<Map<Seq<char>, Seq<char>>>)
    requires
        0 <= m.offset <= src.len(),
        is_literal(src.skip(m.offset)),
    ensures
        ({
            let read = snippet::read_until(src, m, None, known);
            &&& read.text == m.text + src.skip(m.offset)
            &&& read.ranges == m.ranges
            &&& read.defaults == m.defaults
        }),
{
    let n = src.len() as int;
    assert forall|i: int| m.offset <= i < n implies #[trigger] src[i] != '$' && src[i] != '\\' by {
        assert(src.skip(m.offset)[i - m.offset] == src[i]);
    }
    lemma_literal(src, m, None, known, n);
    assert(src.subrange(m.offset, n) =~= src.skip(m.offset));
}

/// Reading comes to the dollar sign behind the literal text `x`.
proof fn lemma_to_dollar(src: Seq<char>, x: Seq<char>, known: Option<Map<Seq<char>, Seq<char>>>)
    requires
        is_literal(x),
        x.len() < src.len(),
        src.take(x.len() as int) == x,
    ensures
        snippet::read_until(src, snippet::unread(), None, known) == snippet::read_until(
            src,
            behind(x),
            None,
            known,
        ),
{
    let n = x.len() as int;
    assert forall|i: int| 0 <= i < n implies #[trigger] src[i] != '$' && src[i] != '\\' by {
        assert(x[i] == src.take(n)[i]);
    }
    lemma_literal(src, snippet::unread(), None, known, n);
    assert(src.subrange(0, n) =~= x);
    assert(Seq::<char>::empty() + x =~= x);
}

/// What is read when the literal text `x` is.
spec fn behind(x: Seq<char>) -> Progress {
    Progress { offset: x.len() as int, text: x, ranges: Seq::empty(), defaults: Seq::empty() }
}

/// `$1` and `${1}` are a tab stop without text.
#[verifier::rlimit(30)]
pub proof fn law_tabstop(
    x: Seq<char>,
    w: Seq<char>,
    index: u32,
    y: Seq<char>,
    known: Option<Map<Seq<char>, Seq<char>>>,
)
    requires
        is_literal(x),
        is_literal(y),
        writes_index(w, index),
    ensures
        ({
            let read = snippet::read_until(
                x + seq!['$', '{'] + w + seq!['}'] + y,
                snippet::unread(),
                None,
                known,
            );
            read.text == x + y && read.ranges == seq![(index, size(x), size(x))]
        }),
        y.len() == 0 || !('0' <= y[0] && y[0] <= '9') ==> ({
            let read = snippet::read_until(x + seq!['$'] + w + y, snippet::unread(), None, known);
            read.text == x + y && read.ranges == seq![(index, size(x), size(x))]
        }),
{
    let a = x.len() as int;
    let m = behind(x);
    let nothing = Seq::<(u32, int, int)>::empty();
    assert(x + Seq::<char>::empty() =~= x);
    assert(nothing.push((index, size(x), size(x))) =~= seq![(index, size(x), size(x))]);
    let braced = x + seq!['$', '{'] + w + seq!['}'] + y;
    let e = a + 2 + w.len();
    assert(braced.take(a) =~= x);
    assert(braced[a] == '$' && braced[a + 1] == '{' && braced[e] == '}');
    assert(braced.subrange(a + 2, e) =~= w);
    assert(braced.skip(e + 1) =~= y);
    lemma_to_dollar(braced, x, known);
    lemma_index(braced, a + 2, w, index);
    let next = snippet::with_tabstop(Progress { offset: e + 1, ..m }, index);
    assert(snippet::read_dollar(braced, m, known) == Some(next));
    lemma_rest(braced, next, known);
    if y.len() == 0 || !('0' <= y[0] && y[0] <= '9') {
        let bare = x + seq!['$'] + w + y;
        let f = a + 1 + w.len();
        assert(bare.take(a) =~= x);
        assert(bare[a] == '$');
        assert(bare[a + 1] == w[0]);
        assert(bare.subrange(a + 1, f) =~= w);
        assert(bare.skip(f) =~= y);
        if y.len() > 0 {
            assert(bare[f] == y[0]);
        }
        lemma_to_dollar(bare, x, known);
        lemma_index(bare, a + 1, w, index);
        let after = snippet::with_tabstop(Progress { offset: f, ..m }, index);
        assert(snippet::read_dollar(bare, m, known) == Some(after));
        lemma_rest(bare, after, known);
    }
}

/// `${1:text}` is a tab stop that reads the text, and a later `$1` reads it too.
#[verifier::rlimit(30)]
pub proof fn law_placeholder(
    x: Seq<char>,
    w: Seq<char>,
    index: u32,
    d: Seq<char>,
    y: Seq<char>,
    known: Option<Map<Seq<char>, Seq<char>>>,
)
    requires
        is_literal(x),
        is_literal(y),
        is_literal(d),
        !d.contains('}'),
        writes_index(w, index),
    ensures
        ({
            let first = x + seq!['$', '{'] + w + seq![':'] + d + seq!['}'] + y;
            let read = snippet::read_until(first, snippet::unread(), None, known);
            read.text == x + d + y && read.ranges == seq![(index, size(x), size(x + d))]
        }),
        ({
            let both = x + seq!['$', '{'] + w + seq![':'] + d + seq!['}'] + y + seq!['$'] + w;
            let read = snippet::read_until(both, snippet::unread(), None, known);
            read.text == x + d + y + d && read.ranges == seq![
                (index, size(x), size(x + d)),
                (index, size(x + d + y), size(x + d + y + d)),
            ]
        }),
{
    let first = x + seq!['$', '{'] + w + seq![':'] + d + seq!['}'] + y;
    lemma_placeholder(first, x, w, index, d, known);
    let next = placed(x, w, index, d);
    assert(first.skip(next.offset) =~= y);
    lemma_rest(first, next, known);
    let both = first + seq!['$'] + w;
    let b = first.len() as int;
    lemma_placeholder(both, x, w, index, d, known);
    assert forall|i: int| next.offset <= i < b implies #[trigger] both[i] != '$' && both[i]
        != '\\' by {
        assert(both[i] == y[i - next.offset]);
    }
    lemma_literal(both, next, None, known, b);
    assert(both.subrange(next.offset, b) =~= y);
    let at = Progress { offset: b, text: x + d + y, ..next };
    assert(next.text + y == x + d + y);
    assert(both[b] == '$' && both[b + 1] == w[0]);
    assert(both.subrange(b + 1, b + 1 + w.len()) =~= w);
    lemma_index(both, b + 1, w, index);
    let end = snippet::with_tabstop(Progress { offset: b + 1 + w.len(), ..at }, index);
    assert(snippet::read_dollar(both, at, known) == Some(end));
    assert(at.defaults[0] == (index, d));
    assert(snippet::default_of(at.defaults, index, 0) == Some(d));
    assert(both.skip(end.offset) =~= Seq::empty());
    lemma_rest(both, end, known);
    assert(x + d + y + d + Seq::<char>::empty() =~= x + d + y + d);
    assert(end.ranges =~= seq![
        (index, size(x), size(x + d)),
        (index, size(x + d + y), size(x + d + y + d)),
    ]);
}

/// What is read behind a placeholder.
spec fn placed(x: Seq<char>, w: Seq<char>, index: u32, d: Seq<char>) -> Progress {
    Progress {
        offset: (x.len() + 4 + w.len() + d.len()) as int,
        text: x + d,
        ranges: seq![(index, size(x), size(x + d))],
        defaults: seq![(index, d)],
    }
}

#[verifier::rlimit(30)]
proof fn lemma_placeholder(
    src: Seq<char>,
    x: Seq<char>,
    w: Seq<char>,
    index: u32,
    d: Seq<char>,
    known: Option<Map<Seq<char>, Seq<char>>>,
)
    requires
        is_literal(x),
        is_literal(d),
        !d.contains('}'),
        writes_index(w, index),
        (x + seq!['$', '{'] + w + seq![':'] + d + seq!['}']).is_prefix_of(src),
    ensures
        snippet::read_until(src, snippet::unread(), None, known) == snippet::read_until(
            src,
            placed(x, w, index, d),
            None,
            known,
        ),
        placed(x, w, index, d).offset <= src.len(),
{
    let whole = x + seq!['$', '{'] + w + seq![':'] + d + seq!['}'];
    let a = x.len() as int;
    let c = a + 2 + w.len();
    let e = c + 1 + d.len();
    assert forall|i: int| 0 <= i < whole.len() implies src[i] == #[trigger] whole[i] by {}
    assert(src.take(a) =~= x) by {
        assert forall|i: int| 0 <= i < a implies src.take(a)[i] == x[i] by {
            assert(whole[i] == x[i]);
        }
    }
    assert(whole[a] == '$' && whole[a + 1] == '{' && whole[c] == ':' && whole[e] == '}');
    assert(src.subrange(a + 2, c) =~= w) by {
        assert forall|i: int| 0 <= i < w.len() implies src.subrange(a + 2, c)[i] == w[i] by {
            assert(whole[a + 2 + i] == w[i]);
        }
    }
    lemma_to_dollar(src, x, known);
    lemma_index(src, a + 2, w, index);
    let m = Progress { offset: c + 1, ..behind(x) };
    assert forall|i: int| c + 1 <= i < e implies #[trigger] src[i] != '$' && src[i] != '\\'
        && Some('}') != Some(src[i]) by {
        assert(whole[i] == d[i - c - 1]);
        assert(d.contains(d[i - c - 1]));
    }
    lemma_literal(src, m, Some('}'), known, e);
    assert(src.subrange(c + 1, e) =~= d) by {
        assert forall|i: int| 0 <= i < d.len() implies src.subrange(c + 1, e)[i] == d[i] by {
            assert(whole[c + 1 + i] == d[i]);
        }
    }
    let inner = Progress { offset: e + 1, text: x + d, ..behind(x) };
    assert(snippet::read_until(src, m, Some('}'), known) == inner);
    let next = snippet::with_default(inner, index, x);
    assert(snippet::read_dollar(src, behind(x), known) == Some(next));
    let meant = placed(x, w, index, d);
    assert((x + d).skip(x.len() as int) =~= d);
    assert(next.ranges =~= meant.ranges);
    assert(next.defaults =~= meant.defaults);
    assert(next == meant);
}

/// `${1|one,two|}` is a tab stop that reads the first of its choices.
#[verifier::rlimit(30)]
pub proof fn law_choices(
    x: Seq<char>,
    w: Seq<char>,
    index: u32,
    c: Seq<char>,
    others: Seq<char>,
    y: Seq<char>,
    known: Option<Map<Seq<char>, Seq<char>>>,
)
    requires
        is_literal(x),
        is_literal(y),
        is_literal(c),
        !c.contains(','),
        !c.contains('|'),
        is_literal(others),
        !others.contains('|'),
        writes_index(w, index),
    ensures
        ({
            let src = x + seq!['$', '{'] + w + seq!['|'] + c + seq![','] + others + seq!['|', '}']
                + y;
            let read = snippet::read_until(src, snippet::unread(), None, known);
            read.text == x + c + y && read.ranges == seq![(index, size(x), size(x + c))]
        }),
{
    let src = x + seq!['$', '{'] + w + seq!['|'] + c + seq![','] + others + seq!['|', '}'] + y;
    let a = x.len() as int;
    let p = a + 2 + w.len();
    let e = p + 1 + c.len() + 1 + others.len();
    assert(src.take(a) =~= x);
    assert(src[a] == '$' && src[a + 1] == '{' && src[p] == '|' && src[e] == '|' && src[e + 1]
        == '}');
    assert(src.subrange(a + 2, p) =~= w);
    lemma_to_dollar(src, x, known);
    lemma_index(src, a + 2, w, index);
    let raw = src.subrange(p + 1, e);
    assert(raw =~= c + seq![','] + others);
    assert forall|i: int| p + 1 <= i < e implies #[trigger] src[i] != '\\' && src[i] != '|' by {
        assert(src[i] == raw[i - p - 1]);
        if i - p - 1 < c.len() {
            assert(raw[i - p - 1] == c[i - p - 1]);
            assert(c.contains(c[i - p - 1]));
        } else if i - p - 1 > c.len() {
            let k = i - p - 2 - c.len();
            assert(raw[i - p - 1] == others[k]);
            assert(others.contains(others[k]));
        }
    }
    lemma_choice_end(src, p + 1, e);
    assert(raw.take(c.len() as int) =~= c);
    assert(raw[c.len() as int] == ',');
    lemma_first_choice(raw, c, 0);
    assert(c.skip(0) =~= c);
    let m = behind(x);
    let next = snippet::with_default(
        Progress { offset: e + 2, text: x + c, ..m },
        index,
        x,
    );
    assert(snippet::read_dollar(src, m, known) == Some(next));
    assert(src.skip(e + 2) =~= y);
    lemma_rest(src, next, known);
    assert(next.ranges =~= seq![(index, size(x), size(x + c))]);
}

proof fn lemma_choice_end(src: Seq<char>, from: int, e: int)
    requires
        0 <= from <= e,
        e + 1 < src.len(),
        src[e] == '|',
        src[e + 1] == '}',
        forall|i: int| from <= i < e ==> #[trigger] src[i] != '\\' && src[i] != '|',
    ensures
        snippet::choice_end(src, from, false) == Some(e),
    decreases e - from,
{
    if from < e {
        assert(src[from] != '\\' && src[from] != '|');
        lemma_choice_end(src, from + 1, e);
    }
}

proof fn lemma_first_choice(raw: Seq<char>, c: Seq<char>, from: int)
    requires
        0 <= from <= c.len() < raw.len(),
        raw.take(c.len() as int) == c,
        raw[c.len() as int] == ',',
        is_literal(c),
        !c.contains(','),
    ensures
        snippet::first_choice(raw, from, false) == c.skip(from),
    decreases c.len() - from,
{
    if from < c.len() {
        assert(raw[from] == raw.take(c.len() as int)[from]);
        assert(c.contains(c[from]));
        lemma_first_choice(raw, c, from + 1);
        assert(seq![c[from]] + c.skip(from + 1) =~= c.skip(from));
    } else {
        assert(c.skip(from) =~= Seq::empty());
    }
}

/// A backslash before a backslash, a dollar sign, a brace, a comma or a bar protects it
/// and goes; before anything else it stays.
#[verifier::rlimit(30)]
pub proof fn law_protected_characters(
    x: Seq<char>,
    c: char,
    y: Seq<char>,
    known: Option<Map<Seq<char>, Seq<char>>>,
)
    requires
        is_literal(x),
        is_literal(y),
    ensures
        c == '\\' || c == '$' || c == '}' || c == ',' || c == '|' ==> ({
            let read = snippet::read_until(
                x + seq!['\\', c] + y,
                snippet::unread(),
                None,
                known,
            );
            read.text == x + seq![c] + y && read.ranges.len() == 0
        }),
        !(c == '\\' || c == '$' || c == '}' || c == ',' || c == '|') ==> ({
            let read = snippet::read_until(
                x + seq!['\\', c] + y,
                snippet::unread(),
                None,
                known,
            );
            read.text == x + seq!['\\', c] + y && read.ranges.len() == 0
        }),
        ({
            let read = snippet::read_until(x + seq!['\\'], snippet::unread(), None, known);
            read.text == x + seq!['\\'] && read.ranges.len() == 0
        }),
{
    let a = x.len() as int;
    let m = behind(x);
    let src = x + seq!['\\', c] + y;
    assert(src.take(a) =~= x);
    assert(src[a] == '\\' && src[a + 1] == c);
    lemma_to_dollar(src, x, known);
    let next = snippet::read_escape(src, m);
    if c == '\\' || c == '$' || c == '}' || c == ',' || c == '|' {
        assert(src.skip(a + 2) =~= y);
        lemma_rest(src, next, known);
        assert(x.push(c) + y =~= x + seq![c] + y);
    } else {
        assert(src.skip(a + 1) =~= seq![c] + y);
        lemma_rest(src, next, known);
        assert(x.push('\\') + (seq![c] + y) =~= x + seq!['\\', c] + y);
    }
    let end = x + seq!['\\'];
    assert(end.take(a) =~= x);
    assert(end[a] == '\\');
    lemma_to_dollar(end, x, known);
    let last = snippet::read_escape(end, m);
    assert(end.skip(a + 1) =~= Seq::empty());
    lemma_rest(end, last, known);
    assert(x.push('\\') + Seq::<char>::empty() =~= x + seq!['\\']);
}

/// A dollar sign that starts nothing stays.
pub proof fn law_lone_dollar(
    x: Seq<char>,
    y: Seq<char>,
    known: Option<Map<Seq<char>, Seq<char>>>,
)
    requires
        is_literal(x),
        is_literal(y),
        y.len() == 0 || !(y[0] == '{' || y[0] == '_' || '0' <= y[0] && y[0] <= '9' || 'a' <= y[0]
            && y[0] <= 'z' || 'A' <= y[0] && y[0] <= 'Z'),
    ensures
        ({
            let read = snippet::read_until(x + seq!['$'] + y, snippet::unread(), None, known);
            read.text == x + seq!['$'] + y && read.ranges.len() == 0
        }),
{
    let a = x.len() as int;
    let src = x + seq!['$'] + y;
    let m = behind(x);
    assert(src.take(a) =~= x);
    assert(src[a] == '$');
    if y.len() > 0 {
        assert(src[a + 1] == y[0]);
    }
    lemma_to_dollar(src, x, known);
    assert(snippet::read_dollar(src, m, known) is None);
    let next = snippet::read_plain(src, m);
    assert(src.skip(a + 1) =~= y);
    lemma_rest(src, next, known);
    assert(x.push('$') + y =~= x + seq!['$'] + y);
}

/// The name of a variable: letters, digits and underscores, with no digit in front.
pub open spec fn is_name(name: Seq<char>) -> bool {
    &&& name.len() > 0
    &&& !('0' <= name[0] && name[0] <= '9')
    &&& forall|i: int| 0 <= i < name.len() ==> is_of_name(#[trigger] name[i])
}

pub open spec fn is_of_name(c: char) -> bool {
    c == '_' || '0' <= c && c <= '9' || 'a' <= c && c <= 'z' || 'A' <= c && c <= 'Z'
}

proof fn lemma_name(src: Seq<char>, from: int, to: int)
    requires
        0 <= from <= to <= src.len(),
        forall|i: int| from <= i < to ==> is_of_name(#[trigger] src[i]),
        to == src.len() || !is_of_name(src[to]),
    ensures
        snippet::name_end(src, from) == to,
    decreases to - from,
{
    if from < to {
        assert(is_of_name(src[from]));
        lemma_name(src, from + 1, to);
    }
}

proof fn lemma_named(src: Seq<char>, from: int, name: Seq<char>)
    requires
        0 <= from,
        from + name.len() <= src.len(),
        src.subrange(from, from + name.len()) == name,
        is_name(name),
        from + name.len() == src.len() || !is_of_name(src[from + name.len()]),
    ensures
        snippet::digits_end(src, from) == from,
        snippet::name_end(src, from) == from + name.len(),
{
    let to = from + name.len();
    assert forall|i: int| from <= i < to implies is_of_name(#[trigger] src[i]) by {
        assert(name[i - from] == src[i]);
    }
    assert(name[0] == src[from]);
    lemma_digits(src, from, from);
    lemma_name(src, from, to);
}

/// What is to be read for a variable without a default, by what is known.
pub open spec fn reads_for(
    known: Option<Map<Seq<char>, Seq<char>>>,
    name: Seq<char>,
    value: Seq<char>,
) -> bool {
    let empty = name == "TM_SELECTED_TEXT"@ || name == "CLIPBOARD"@;
    match known {
        Some(values) => if values.dom().contains(name) {
            value == values[name]
        } else if empty {
            value.len() == 0
        } else {
            value == name
        },
        None => if empty {
            value.len() == 0
        } else {
            value == name
        },
    }
}

/// `$NAME` and `${NAME}` read the value of the variable, and its name where it has none
/// and no editor is needed to know it.
#[verifier::rlimit(30)]
pub proof fn law_variable(
    x: Seq<char>,
    name: Seq<char>,
    value: Seq<char>,
    y: Seq<char>,
    known: Option<Map<Seq<char>, Seq<char>>>,
)
    requires
        is_literal(x),
        is_literal(y),
        is_name(name),
        reads_for(known, name, value),
    ensures
        ({
            let read = snippet::read_until(
                x + seq!['$', '{'] + name + seq!['}'] + y,
                snippet::unread(),
                None,
                known,
            );
            read.text == x + value + y && read.ranges.len() == 0
        }),
        y.len() == 0 || !is_of_name(y[0]) ==> ({
            let read = snippet::read_until(
                x + seq!['$'] + name + y,
                snippet::unread(),
                None,
                known,
            );
            read.text == x + value + y && read.ranges.len() == 0
        }),
{
    let a = x.len() as int;
    let m = behind(x);
    assert(snippet::value_or_name(known, name) =~= value);
    let braced = x + seq!['$', '{'] + name + seq!['}'] + y;
    let e = a + 2 + name.len();
    assert(braced.take(a) =~= x);
    assert(braced[a] == '$' && braced[a + 1] == '{' && braced[e] == '}');
    assert(braced.subrange(a + 2, e) =~= name);
    assert(braced.skip(e + 1) =~= y);
    lemma_to_dollar(braced, x, known);
    lemma_named(braced, a + 2, name);
    let next = Progress { offset: e + 1, text: x + value, ..m };
    assert(snippet::read_dollar(braced, m, known) == Some(next));
    lemma_rest(braced, next, known);
    if y.len() == 0 || !is_of_name(y[0]) {
        let bare = x + seq!['$'] + name + y;
        let f = a + 1 + name.len();
        assert(bare.take(a) =~= x);
        assert(bare[a] == '$');
        assert(bare[a + 1] == name[0]);
        assert(is_of_name(name[0]));
        assert(bare.subrange(a + 1, f) =~= name);
        assert(bare.skip(f) =~= y);
        if y.len() > 0 {
            assert(bare[f] == y[0]);
        }
        lemma_to_dollar(bare, x, known);
        lemma_named(bare, a + 1, name);
        let after = Progress { offset: f, text: x + value, ..m };
        assert(snippet::read_dollar(bare, m, known) == Some(after));
        lemma_rest(bare, after, known);
    }
}

/// `${NAME:text}` reads the value of the variable where it has one, and else the text.
#[verifier::rlimit(30)]
pub proof fn law_variable_with_default(
    x: Seq<char>,
    name: Seq<char>,
    d: Seq<char>,
    y: Seq<char>,
    values: Map<Seq<char>, Seq<char>>,
)
    requires
        is_literal(x),
        is_literal(y),
        is_literal(d),
        !d.contains('}'),
        !d.contains('{'),
        is_name(name),
    ensures
        ({
            let read = snippet::read_until(
                x + seq!['$', '{'] + name + seq![':'] + d + seq!['}'] + y,
                snippet::unread(),
                None,
                Some(values),
            );
            &&& read.ranges.len() == 0
            &&& read.text == x + (if values.dom().contains(name) {
                values[name]
            } else {
                d
            }) + y
        }),
{
    let src = x + seq!['$', '{'] + name + seq![':'] + d + seq!['}'] + y;
    let known = Some(values);
    let a = x.len() as int;
    let m = behind(x);
    let c = a + 2 + name.len();
    let e = c + 1 + d.len();
    assert(src.take(a) =~= x);
    assert(src[a] == '$' && src[a + 1] == '{' && src[c] == ':' && src[e] == '}');
    assert(src.subrange(a + 2, c) =~= name);
    assert(src.subrange(c + 1, e) =~= d);
    assert(src.skip(e + 1) =~= y);
    lemma_to_dollar(src, x, known);
    lemma_named(src, a + 2, name);
    assert forall|i: int| c + 1 <= i < e implies #[trigger] src[i] != '$' && src[i] != '\\'
        && Some('}') != Some(src[i]) && src[i] != '{' by {
        assert(src[i] == d[i - c - 1]);
        assert(d.contains(d[i - c - 1]));
    }
    if values.dom().contains(name) {
        lemma_braces_end(src, c + 1, e);
        let next = Progress { offset: e + 1, text: x + values[name], ..m };
        assert(snippet::read_dollar(src, m, known) == Some(next));
        lemma_rest(src, next, known);
    } else {
        lemma_literal(src, Progress { offset: c + 1, ..m }, Some('}'), known, e);
        let next = Progress { offset: e + 1, text: x + d, ..m };
        assert(snippet::read_dollar(src, m, known) == Some(next));
        lemma_rest(src, next, known);
    }
}

proof fn lemma_braces_end(src: Seq<char>, from: int, e: int)
    requires
        0 <= from <= e < src.len(),
        src[e] == '}',
        forall|i: int| from <= i < e ==> #[trigger] src[i] != '\\' && src[i] != '}' && src[i] != '{',
    ensures
        snippet::braces_end(src, from, 0) == e + 1,
    decreases e - from,
{
    if from < e {
        assert(src[from] != '\\' && src[from] != '}' && src[from] != '{');
        lemma_braces_end(src, from + 1, e);
    }
}

/// A tab stop holds every place with its number, and nothing else.
pub proof fn law_stop_holds_its_places(ranges: Seq<(u32, int, int)>, k: int, i: int, j: int)
    ensures
        0 <= k < ranges.len() ==> exists|s: int|
            0 <= s < snippet::grouped(ranges).len() && (#[trigger] snippet::grouped(ranges)[s]).0
                == ranges[k].0 && snippet::grouped(ranges)[s].1.contains(
                (ranges[k].1, ranges[k].2),
            ),
        0 <= i < snippet::grouped(ranges).len() && 0 <= j < snippet::grouped(ranges)[i].1.len()
            ==> ranges.contains(
            (
                snippet::grouped(ranges)[i].0,
                snippet::grouped(ranges)[i].1[j].0,
                snippet::grouped(ranges)[i].1[j].1,
            ),
        ),
{
    let n = ranges.len() as int;
    let keys = snippet::visit_keys(ranges, n);
    let stops = snippet::grouped(ranges);
    lemma_keys(ranges, n);
    if 0 <= k < n {
        let key = snippet::visit_key(ranges[k].0);
        assert(keys.contains(key));
        let s = choose|s: int| 0 <= s < keys.len() && keys[s] == key;
        lemma_places(ranges, key, n, k);
        assert(stops[s].0 == ranges[k].0);
    }
    if 0 <= i < stops.len() && 0 <= j < stops[i].1.len() {
        assert(keys.contains(keys[i]));
        lemma_place_of(ranges, keys[i], n, j);
    }
}

proof fn lemma_keys(ranges: Seq<(u32, int, int)>, n: int)
    requires
        0 <= n <= ranges.len(),
    ensures
        order::is_ascending(snippet::visit_keys(ranges, n)),
        forall|k: int|
            0 <= k < n ==> snippet::visit_keys(ranges, n).contains(
                snippet::visit_key((#[trigger] ranges[k]).0),
            ),
    decreases n,
{
    if n > 0 {
        lemma_keys(ranges, n - 1);
        order::lemma_with_key(
            snippet::visit_keys(ranges, n - 1),
            snippet::visit_key(ranges[n - 1].0),
        );
    }
}

proof fn lemma_places(ranges: Seq<(u32, int, int)>, key: int, n: int, k: int)
    requires
        0 <= k < n <= ranges.len(),
        snippet::visit_key(ranges[k].0) == key,
    ensures
        snippet::places_of(ranges, key, n).contains((ranges[k].1, ranges[k].2)),
    decreases n,
{
    let now = snippet::places_of(ranges, key, n);
    if k < n - 1 {
        lemma_places(ranges, key, n - 1, k);
        let before = snippet::places_of(ranges, key, n - 1);
        let j = choose|j: int| 0 <= j < before.len() && before[j] == (ranges[k].1, ranges[k].2);
        assert(now[j] == before[j]);
    } else {
        assert(now.last() == (ranges[k].1, ranges[k].2));
    }
}

proof fn lemma_place_of(ranges: Seq<(u32, int, int)>, key: int, n: int, j: int)
    requires
        0 <= n <= ranges.len(),
        0 <= j < snippet::places_of(ranges, key, n).len(),
    ensures
        ranges.contains(
            (
                snippet::index_of_key(key),
                snippet::places_of(ranges, key, n)[j].0,
                snippet::places_of(ranges, key, n)[j].1,
            ),
        ),
    decreases n,
{
    if n > 0 {
        let before = snippet::places_of(ranges, key, n - 1);
        let now = snippet::places_of(ranges, key, n);
        if j < before.len() {
            lemma_place_of(ranges, key, n - 1, j);
            assert(now[j] == before[j]);
        } else {
            assert(snippet::visit_key(ranges[n - 1].0) == key);
            assert(snippet::index_of_key(key) == ranges[n - 1].0);
            assert(ranges[n - 1] == (snippet::index_of_key(key), now[j].0, now[j].1));
        }
    }
}

proof fn lemma_slash(src: Seq<char>, from: int, to: int)
    requires
        0 <= from <= to < src.len(),
        src[to] == '/',
        forall|i: int| from <= i < to ==> #[trigger] src[i] != '/' && src[i] != '\\',
    ensures
        snippet_transform::slash_at(src, from, false) == Some(to),
    decreases to - from,
{
    if from < to {
        assert(src[from] != '/' && src[from] != '\\');
        lemma_slash(src, from + 1, to);
    }
}

proof fn lemma_format_end(src: Seq<char>, from: int, to: int)
    requires
        0 <= from <= to < src.len(),
        src[to] == '/',
        forall|i: int|
            from <= i < to ==> #[trigger] src[i] != '/' && src[i] != '\\' && src[i] != '$',
    ensures
        snippet_transform::format_end(src, from) == Some(to),
    decreases to - from,
{
    if from < to {
        assert(src[from] != '/' && src[from] != '\\' && src[from] != '$');
        lemma_format_end(src, from + 1, to);
    }
}

proof fn lemma_brace(src: Seq<char>, from: int, to: int)
    requires
        0 <= from <= to < src.len(),
        src[to] == '}',
        forall|i: int| from <= i < to ==> #[trigger] src[i] != '}',
    ensures
        snippet_transform::brace_at(src, from) == Some(to),
    decreases to - from,
{
    if from < to {
        assert(src[from] != '}');
        lemma_brace(src, from + 1, to);
    }
}

/// `${NAME/pattern/format/options}` reads what the transformation makes of the value of
/// the variable, or of the empty text where it has none.
#[verifier::rlimit(30)]
pub proof fn law_transformed_variable(
    x: Seq<char>,
    name: Seq<char>,
    pattern: Seq<char>,
    format: Seq<char>,
    options: Seq<char>,
    y: Seq<char>,
    values: Map<Seq<char>, Seq<char>>,
    made: Seq<char>,
)
    requires
        is_literal(x),
        is_literal(y),
        is_name(name),
        is_literal(pattern),
        !pattern.contains('/'),
        is_literal(format),
        !format.contains('/'),
        !options.contains('}'),
        snippet_transform::transform_result(
            pattern,
            format,
            options,
            if values.dom().contains(name) {
                values[name]
            } else {
                Seq::empty()
            },
        ) == Some(made),
    ensures
        ({
            let read = snippet::read_until(
                x + seq!['$', '{'] + name + seq!['/'] + pattern + seq!['/'] + format + seq!['/']
                    + options + seq!['}'] + y,
                snippet::unread(),
                None,
                Some(values),
            );
            read.text == x + made + y && read.ranges.len() == 0
        }),
{
    let src = x + seq!['$', '{'] + name + seq!['/'] + pattern + seq!['/'] + format + seq!['/']
        + options + seq!['}'] + y;
    let known = Some(values);
    let a = x.len() as int;
    let n = a + 2 + name.len();
    let p = n + 1 + pattern.len();
    let f = p + 1 + format.len();
    let o = f + 1 + options.len();
    let m = behind(x);
    assert(src.take(a) =~= x);
    assert(src[a] == '$' && src[a + 1] == '{' && src[n] == '/');
    assert(src[p] == '/' && src[f] == '/' && src[o] == '}');
    assert(src.subrange(a + 2, n) =~= name);
    assert(src.subrange(n + 1, p) =~= pattern);
    assert(src.subrange(p + 1, f) =~= format);
    assert(src.subrange(f + 1, o) =~= options);
    assert(src.skip(o + 1) =~= y);
    lemma_to_dollar(src, x, known);
    lemma_named(src, a + 2, name);
    assert forall|i: int| n + 1 <= i < p implies #[trigger] src[i] != '/' && src[i] != '\\' by {
        assert(src.subrange(n + 1, p)[i - n - 1] == src[i]);
        assert(pattern.contains(pattern[i - n - 1]));
    }
    lemma_slash(src, n + 1, p);
    assert forall|i: int| p + 1 <= i < f implies #[trigger] src[i] != '/' && src[i] != '\\' && src[i]
        != '$' by {
        assert(src.subrange(p + 1, f)[i - p - 1] == src[i]);
        assert(format.contains(format[i - p - 1]));
    }
    lemma_format_end(src, p + 1, f);
    assert forall|i: int| f + 1 <= i < o implies #[trigger] src[i] != '}' by {
        assert(src.subrange(f + 1, o)[i - f - 1] == src[i]);
        assert(options.contains(options[i - f - 1]));
    }
    lemma_brace(src, f + 1, o);
    assert(snippet_transform::transform_ends(src, n + 1) == Some((p, f, o)));
    let next = Progress { offset: o + 1, text: x + made, ..m };
    assert(snippet::read_transform(src, m, known, name, n) == Some(next));
    assert(snippet::read_dollar(src, m, known) == Some(next));
    lemma_rest(src, next, known);
}

proof fn lemma_nested_text(
    x: Seq<char>,
    w: Seq<char>,
    d: Seq<char>,
    v: Seq<char>,
    e: Seq<char>,
    f: Seq<char>,
    y: Seq<char>,
)
    ensures
        ({
            let src = x + seq!['$', '{'] + w + seq![':'] + d + seq!['$', '{'] + v + seq![':'] + e
                + seq!['}'] + f + seq!['}'] + y;
            let a = x.len() as int;
            let c = a + 2 + w.len();
            let p = c + 1 + d.len();
            let q = p + 2 + v.len();
            let r = q + 1 + e.len();
            let z = r + 1 + f.len();
            &&& src.len() == z + 1 + y.len()
            &&& src.take(a) == x
            &&& src[a] == '$' && src[a + 1] == '{' && src[c] == ':'
            &&& src[p] == '$' && src[p + 1] == '{' && src[q] == ':'
            &&& src[r] == '}' && src[z] == '}'
            &&& src.subrange(a + 2, c) == w
            &&& src.subrange(c + 1, p) == d
            &&& src.subrange(p + 2, q) == v
            &&& src.subrange(q + 1, r) == e
            &&& src.subrange(r + 1, z) == f
            &&& src.skip(z + 1) == y
        }),
{
}

/// A placeholder inside another belongs to the text of both.
#[verifier::rlimit(60)]
pub proof fn law_nested_placeholder(
    x: Seq<char>,
    w: Seq<char>,
    index: u32,
    d: Seq<char>,
    v: Seq<char>,
    inner: u32,
    e: Seq<char>,
    f: Seq<char>,
    y: Seq<char>,
    known: Option<Map<Seq<char>, Seq<char>>>,
)
    requires
        is_literal(x),
        is_literal(y),
        is_literal(d),
        is_literal(e),
        is_literal(f),
        !d.contains('}'),
        !e.contains('}'),
        !f.contains('}'),
        writes_index(w, index),
        writes_index(v, inner),
    ensures
        ({
            let src = x + seq!['$', '{'] + w + seq![':'] + d + seq!['$', '{'] + v + seq![':'] + e
                + seq!['}'] + f + seq!['}'] + y;
            let read = snippet::read_until(src, snippet::unread(), None, known);
            &&& read.text == x + d + e + f + y
            &&& read.ranges == seq![
                (inner, size(x + d), size(x + d + e)),
                (index, size(x), size(x + d + e + f)),
            ]
        }),
{
    let src = x + seq!['$', '{'] + w + seq![':'] + d + seq!['$', '{'] + v + seq![':'] + e + seq!['}']
        + f + seq!['}'] + y;
    let a = x.len() as int;
    let c = a + 2 + w.len();
    let p = c + 1 + d.len();
    let q = p + 2 + v.len();
    let r = q + 1 + e.len();
    let z = r + 1 + f.len();
    let m = behind(x);
    lemma_nested_text(x, w, d, v, e, f, y);
    lemma_to_dollar(src, x, known);
    lemma_index(src, a + 2, w, index);
    lemma_index(src, p + 2, v, inner);
    lemma_part(src, c + 1, p, d);
    lemma_part(src, q + 1, r, e);
    lemma_part(src, r + 1, z, f);
    let m1 = Progress { offset: c + 1, ..m };
    lemma_literal(src, m1, Some('}'), known, p);
    let m2 = Progress { offset: p, text: x + d, ..m };
    let m3 = Progress { offset: q + 1, ..m2 };
    lemma_literal(src, m3, Some('}'), known, r);
    let m4 = Progress { offset: r + 1, text: x + d + e, ..m };
    assert(snippet::read_until(src, m3, Some('}'), known) == m4);
    let m5 = snippet::with_default(m4, inner, x + d);
    assert(snippet::read_dollar(src, m2, known) == Some(m5));
    assert(snippet::read_until(src, m2, Some('}'), known) == snippet::read_until(
        src,
        m5,
        Some('}'),
        known,
    ));
    lemma_literal(src, m5, Some('}'), known, z);
    let m6 = Progress { offset: z + 1, text: x + d + e + f, ..m5 };
    assert(snippet::read_until(src, m1, Some('}'), known) == m6);
    let m7 = snippet::with_default(m6, index, x);
    assert(snippet::read_dollar(src, m, known) == Some(m7));
    lemma_rest(src, m7, known);
    assert(m7.ranges =~= seq![
        (inner, size(x + d), size(x + d + e)),
        (index, size(x), size(x + d + e + f)),
    ]);
}

proof fn lemma_part(src: Seq<char>, from: int, to: int, part: Seq<char>)
    requires
        0 <= from <= to <= src.len(),
        src.subrange(from, to) == part,
        is_literal(part),
        !part.contains('}'),
    ensures
        forall|i: int|
            from <= i < to ==> #[trigger] src[i] != '$' && src[i] != '\\' && Some('}') != Some(
                src[i],
            ),
{
    assert forall|i: int| from <= i < to implies #[trigger] src[i] != '$' && src[i] != '\\' && Some(
        '}',
    ) != Some(src[i]) by {
        assert(src.subrange(from, to)[i - from] == src[i]);
        assert(part.contains(part[i - from]));
    }
}

/// Of several texts for one tab stop the first is the one that it reads elsewhere.
pub proof fn law_first_default(defaults: Seq<(u32, Seq<char>)>, index: u32, from: int)
    requires
        0 <= from <= defaults.len(),
    ensures
        match snippet::default_of(defaults, index, from) {
            Some(text) => exists|i: int|
                from <= i < defaults.len() && #[trigger] defaults[i] == (index, text) && forall|j: int|
                    from <= j < i ==> (#[trigger] defaults[j]).0 != index,
            None => forall|j: int| from <= j < defaults.len() ==> (#[trigger] defaults[j]).0 != index,
        },
    decreases defaults.len() - from,
{
    if from < defaults.len() {
        if defaults[from].0 == index {
            assert(defaults[from] == (index, defaults[from].1));
        } else {
            law_first_default(defaults, index, from + 1);
            let found = snippet::default_of(defaults, index, from);
            if found is Some {
                let i = choose|i: int|
                    from + 1 <= i < defaults.len() && #[trigger] defaults[i] == (
                        index,
                        found->Some_0,
                    ) && forall|j: int|
                        from + 1 <= j < i ==> (#[trigger] defaults[j]).0 != index;
                assert(from <= i);
            }
        }
    }
}

} // verus!

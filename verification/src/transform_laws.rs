//! What transformations of placeholders come to.

use crate::chars;
use crate::snippet;
use crate::snippet_transform as transform;
use crate::snippet_transform::{OperationModel, PartModel};
use crate::text;
use vstd::prelude::*;
use vstd::utf8::*;

verus! {

/// The text has no character that stands for something else in a format.
pub open spec fn is_plain(s: Seq<char>) -> bool {
    forall|i: int|
        0 <= i < s.len() ==> #[trigger] s[i] != '\\' && s[i] != '$' && s[i] != '}' && s[i] != '/'
            && s[i] != ':'
}

/// The groups of one match of `m` in `x + m + y`, of which group `n` captured
/// `captured`, or took no part and captured nothing.
pub open spec fn is_match(
    x: Seq<char>,
    m: Seq<char>,
    y: Seq<char>,
    groups: Seq<Option<(int, int)>>,
    n: int,
    captured: Seq<char>,
) -> bool {
    let a = encode_utf8(x).len() as int;
    let b = a + encode_utf8(m).len();
    &&& 1 <= n < groups.len()
    &&& groups[0] == Some((a, b))
    &&& match groups[n] {
        None => captured.len() == 0,
        Some((start, end)) => {
            &&& a <= start <= end <= b
            &&& is_char_boundary(encode_utf8(x + m + y), start)
            &&& is_char_boundary(encode_utf8(x + m + y), end)
            &&& encode_utf8(x + m + y).subrange(start, end) == encode_utf8(captured)
        },
    }
}

/// What the format makes of the value with these matches.
pub open spec fn formatted(
    value: Seq<char>,
    format: Seq<char>,
    global: bool,
    matches: Seq<Option<Seq<Option<(int, int)>>>>,
) -> Seq<char> {
    transform::transformed(
        value,
        transform::format_from(format, 0, Seq::empty(), Seq::empty()),
        global,
        matches,
    )
}

proof fn lemma_body_over(src: Seq<char>, from: int, end: int)
    requires
        0 <= from <= end < src.len(),
        src[end] == '}',
        forall|i: int| from <= i < end ==> #[trigger] src[i] != '\\' && src[i] != '}',
    ensures
        transform::body_end(src, from, false) == Some(end),
    decreases end - from,
{
    if from < end {
        assert(src[from] != '\\');
        lemma_body_over(src, from + 1, end);
    }
}

proof fn lemma_colon_over(src: Seq<char>, from: int, end: int)
    requires
        0 <= from <= end < src.len(),
        src[end] == ':',
        forall|i: int| from <= i < end ==> #[trigger] src[i] != '\\' && src[i] != ':',
    ensures
        transform::colon_at(src, from, false) == Some(end),
    decreases end - from,
{
    if from < end {
        assert(src[from] != '\\');
        lemma_colon_over(src, from + 1, end);
    }
}

proof fn lemma_plain_value(src: Seq<char>, from: int)
    requires
        0 <= from <= src.len(),
        is_plain(src),
    ensures
        transform::unescaped(src, from) == src.skip(from),
    decreases src.len() - from,
{
    if from < src.len() {
        lemma_plain_value(src, from + 1);
        assert(src[from] != '\\');
        assert(src.skip(from) =~= seq![src[from]] + src.skip(from + 1));
    } else {
        assert(src.skip(from) =~= Seq::empty());
    }
}

proof fn lemma_one_digit(src: Seq<char>, at: int)
    requires
        0 <= at < src.len(),
        '0' <= src[at] <= '9',
        at + 1 < src.len() ==> !('0' <= src[at + 1] <= '9'),
    ensures
        snippet::digits_end(src, at) == at + 1,
        transform::bounded_number(src, at, at + 1) == src[at] as int - '0' as int,
{
    reveal_with_fuel(snippet::digits_end, 3);
    reveal_with_fuel(snippet::number, 3);
}

/// What stands in braces is read as one expression.
proof fn lemma_braced(digit: char, tail: Seq<char>)
    requires
        '0' <= digit <= '9',
        forall|i: int| 0 <= i < tail.len() ==> #[trigger] tail[i] != '\\' && tail[i] != '}',
        transform::complex_capture(seq![digit] + tail) is Some,
    ensures
        transform::format_from(
            seq!['$', '{', digit] + tail + seq!['}'],
            0,
            Seq::empty(),
            Seq::empty(),
        ) == seq![transform::complex_capture(seq![digit] + tail)->Some_0],
{
    let src = seq!['$', '{', digit] + tail + seq!['}'];
    let end = src.len() - 1;
    assert forall|i: int| 2 <= i < end implies #[trigger] src[i] != '\\' && src[i] != '}' by {
        if i > 2 {
            assert(src[i] == tail[i - 3]);
        }
    }
    assert(src[end] == '}');
    lemma_body_over(src, 2, end);
    assert(src.subrange(2, end) =~= seq![digit] + tail);
    assert(snippet::digits_end(src, 1) == 1);
    let part = transform::complex_capture(seq![digit] + tail)->Some_0;
    assert(transform::expression_at(src, 0) == Some((part, end + 1)));
    let none = Seq::<PartModel>::empty();
    let empty = Seq::<char>::empty();
    assert(transform::flushed(none, empty).push(part) =~= seq![part]);
    assert(transform::format_from(src, end + 1, seq![part], empty) == seq![part]);
}

proof fn lemma_part_of(t: Seq<u8>, o: int)
    requires
        valid_utf8(t),
        is_char_boundary(t, o),
    ensures
        text::is_boundary(t, o),
{
    text::lemma_boundary(t, o);
}

/// A value whose only match becomes `output`.
#[verifier::rlimit(30)]
proof fn lemma_one_match(
    x: Seq<char>,
    m: Seq<char>,
    y: Seq<char>,
    parts: Seq<PartModel>,
    groups: Seq<Option<(int, int)>>,
    global: bool,
    output: Seq<char>,
)
    requires
        groups.len() > 0,
        groups[0] == Some(
            (encode_utf8(x).len() as int, (encode_utf8(x).len() + encode_utf8(m).len()) as int),
        ),
        transform::rendered(x, encode_utf8(x + m + y), parts, groups, parts.len() as int) == Some(
            x + output,
        ),
        encode_utf8(x).len() + encode_utf8(output).len() + encode_utf8(y).len()
            <= transform::MAX_TRANSFORM_OUTPUT_BYTES,
    ensures
        transform::transformed(x + m + y, parts, global, seq![Some(groups)]) == x + output + y,
{
    let value = x + m + y;
    let t = encode_utf8(value);
    let matches = seq![Some(groups)];
    let a = encode_utf8(x).len() as int;
    let b = a + encode_utf8(m).len();
    text::lemma_encode_concat(x + m, y);
    text::lemma_encode_concat(x, m);
    text::lemma_encode_concat(x, output);
    encode_utf8_valid_utf8(value);
    encode_utf8_decode_utf8(x);
    encode_utf8_decode_utf8(y);
    assert(t.subrange(0, a) =~= encode_utf8(x));
    assert(t.subrange(b, t.len() as int) =~= encode_utf8(y));
    crate::lsp::linked_editing::lemma_char_boundary(value, x.len() as int);
    crate::lsp::linked_editing::lemma_char_boundary(value, (x + m).len() as int);
    assert(value.take(x.len() as int) =~= x);
    assert(value.take((x + m).len() as int) =~= x + m);
    assert(transform::is_part(t, (a, b)));
    let empty = Seq::<char>::empty();
    assert(encode_utf8(empty) =~= Seq::<u8>::empty());
    assert(empty + x =~= x);
    reveal_with_fuel(transform::rewritten, 2);
    assert(transform::rewritten(value, parts, matches, 1) == Some(
        transform::Rewrite { output: x + output, end: b },
    ));
}

/// What a group holds that captured something.
proof fn lemma_captured(
    x: Seq<char>,
    m: Seq<char>,
    y: Seq<char>,
    groups: Seq<Option<(int, int)>>,
    n: int,
    captured: Seq<char>,
)
    requires
        is_match(x, m, y, groups, n, captured),
    ensures
        transform::group_text(encode_utf8(x + m + y), groups, n) == captured,
{
    let t = encode_utf8(x + m + y);
    text::lemma_encode_concat(x + m, y);
    text::lemma_encode_concat(x, m);
    encode_utf8_valid_utf8(x + m + y);
    match groups[n] {
        Some((start, end)) => {
            lemma_part_of(t, start);
            lemma_part_of(t, end);
            encode_utf8_decode_utf8(captured);
        },
        None => {
            assert(captured =~= Seq::empty());
        },
    }
}

/// The output of one expression in braces, given what it makes of the capture.
proof fn lemma_one_expression(
    x: Seq<char>,
    m: Seq<char>,
    y: Seq<char>,
    groups: Seq<Option<(int, int)>>,
    digit: char,
    captured: Seq<char>,
    tail: Seq<char>,
    operation: OperationModel,
    output: Seq<char>,
    global: bool,
)
    requires
        '1' <= digit <= '9',
        is_match(x, m, y, groups, digit as int - '0' as int, captured),
        forall|i: int| 0 <= i < tail.len() ==> #[trigger] tail[i] != '\\' && tail[i] != '}',
        transform::complex_capture(seq![digit] + tail) == Some(
            PartModel::Capture((digit as int - '0' as int) as usize, operation),
        ),
        transform::operated(captured, operation) == output,
        encode_utf8(x).len() + encode_utf8(output).len() + encode_utf8(y).len()
            <= transform::MAX_TRANSFORM_OUTPUT_BYTES,
    ensures
        formatted(
            x + m + y,
            seq!['$', '{', digit] + tail + seq!['}'],
            global,
            seq![Some(groups)],
        ) == x + output + y,
{
    let n = digit as int - '0' as int;
    lemma_braced(digit, tail);
    lemma_captured(x, m, y, groups, n, captured);
    let parts = seq![PartModel::Capture(n as usize, operation)];
    let t = encode_utf8(x + m + y);
    reveal_with_fuel(transform::rendered, 2);
    assert(transform::rendered(x, t, parts, groups, 1) == Some(x + output));
    lemma_one_match(x, m, y, parts, groups, global, output);
}

/// What the conditional insertions make of a match, by what the group captured:
/// `${n:+text}` is the text where it captured something and nothing otherwise,
/// `${n:-text}` and `${n:text}` are what it captured, or the text where that is
/// nothing, and `${n:?a:b}` is the one where it captured something and the other
/// where not. What stands around the match stays.
#[verifier::rlimit(30)]
pub proof fn law_conditional_insertions(
    x: Seq<char>,
    m: Seq<char>,
    y: Seq<char>,
    groups: Seq<Option<(int, int)>>,
    digit: char,
    captured: Seq<char>,
    a: Seq<char>,
    b: Seq<char>,
    global: bool,
)
    requires
        '1' <= digit <= '9',
        is_match(x, m, y, groups, digit as int - '0' as int, captured),
        is_plain(a),
        is_plain(b),
        encode_utf8(x).len() + encode_utf8(a).len() + encode_utf8(b).len() + encode_utf8(
            captured,
        ).len() + encode_utf8(y).len() <= transform::MAX_TRANSFORM_OUTPUT_BYTES,
    ensures
        ({
            let value = x + m + y;
            let matches = seq![Some(groups)];
            let open = seq!['$', '{', digit];
            &&& formatted(value, open + (seq![':', '+'] + a) + seq!['}'], global, matches) == x + (
            if captured.len() > 0 {
                a
            } else {
                Seq::empty()
            }) + y
            &&& formatted(value, open + (seq![':', '-'] + a) + seq!['}'], global, matches) == x + (
            if captured.len() > 0 {
                captured
            } else {
                a
            }) + y
            &&& formatted(
                value,
                open + (seq![':', '?'] + a + seq![':'] + b) + seq!['}'],
                global,
                matches,
            ) == x + (if captured.len() > 0 {
                a
            } else {
                b
            }) + y
            &&& a.len() > 0 && a[0] != '+' && a[0] != '-' && a[0] != '?' ==> formatted(
                value,
                open + (seq![':'] + a) + seq!['}'],
                global,
                matches,
            ) == x + (if captured.len() > 0 {
                captured
            } else {
                a
            }) + y
        }),
{
    let n = (digit as int - '0' as int) as usize;
    let empty = Seq::<char>::empty();
    assert(encode_utf8(empty) =~= Seq::<u8>::empty());
    lemma_plain_value(a, 0);
    lemma_plain_value(b, 0);
    assert(a.skip(0) =~= a);
    assert(b.skip(0) =~= b);
    {
        let tail = seq![':', '+'] + a;
        let body = seq![digit] + tail;
        lemma_one_digit(body, 0);
        assert(body.skip(2).skip(1) =~= a);
        assert(body.skip(2)[0] == '+');
        assert forall|i: int| 0 <= i < tail.len() implies #[trigger] tail[i] != '\\' && tail[i]
            != '}' by {
            if i >= 2 {
                assert(tail[i] == a[i - 2]);
            }
        }
        let output = if captured.len() > 0 {
            a
        } else {
            empty
        };
        assert(transform::operated(captured, OperationModel::If(a)) =~= output);
        lemma_one_expression(x, m, y, groups, digit, captured, tail, OperationModel::If(a), output, global);
    }
    {
        let tail = seq![':', '-'] + a;
        let body = seq![digit] + tail;
        lemma_one_digit(body, 0);
        assert(body.skip(2).skip(1) =~= a);
        assert(body.skip(2)[0] == '-');
        assert forall|i: int| 0 <= i < tail.len() implies #[trigger] tail[i] != '\\' && tail[i]
            != '}' by {
            if i >= 2 {
                assert(tail[i] == a[i - 2]);
            }
        }
        let output = if captured.len() > 0 {
            captured
        } else {
            a
        };
        lemma_one_expression(x, m, y, groups, digit, captured, tail, OperationModel::Else(a), output, global);
    }
    {
        let tail = seq![':', '?'] + a + seq![':'] + b;
        let body = seq![digit] + tail;
        lemma_one_digit(body, 0);
        let conditional = body.skip(2).skip(1);
        assert(conditional =~= a + seq![':'] + b);
        assert(body.skip(2)[0] == '?');
        let split = a.len() as int;
        assert forall|i: int| 0 <= i < split implies #[trigger] conditional[i] != '\\'
            && conditional[i] != ':' by {
            assert(conditional[i] == a[i]);
        }
        lemma_colon_over(conditional, 0, split);
        assert(conditional.take(split) =~= a);
        assert(conditional.skip(split + 1) =~= b);
        assert forall|i: int| 0 <= i < tail.len() implies #[trigger] tail[i] != '\\' && tail[i]
            != '}' by {
            if 2 <= i < 2 + a.len() {
                assert(tail[i] == a[i - 2]);
            } else if i > 2 + a.len() {
                assert(tail[i] == b[i - 3 - a.len()]);
            }
        }
        let output = if captured.len() > 0 {
            a
        } else {
            b
        };
        lemma_one_expression(x, m, y, groups, digit, captured, tail, OperationModel::IfElse(a, b), output, global);
    }
    if a.len() > 0 && a[0] != '+' && a[0] != '-' && a[0] != '?' {
        let tail = seq![':'] + a;
        let body = seq![digit] + tail;
        lemma_one_digit(body, 0);
        assert(body.skip(2) =~= a);
        assert(a[0] != '/');
        assert forall|i: int| 0 <= i < tail.len() implies #[trigger] tail[i] != '\\' && tail[i]
            != '}' by {
            if i >= 1 {
                assert(tail[i] == a[i - 1]);
            }
        }
        let output = if captured.len() > 0 {
            captured
        } else {
            a
        };
        lemma_one_expression(x, m, y, groups, digit, captured, tail, OperationModel::Else(a), output, global);
    }
}

/// `${n:+a}` says the same as `${n:?a:}` on every value.
pub proof fn law_insertion_is_a_choice(
    x: Seq<char>,
    m: Seq<char>,
    y: Seq<char>,
    groups: Seq<Option<(int, int)>>,
    digit: char,
    captured: Seq<char>,
    a: Seq<char>,
    global: bool,
)
    requires
        '1' <= digit <= '9',
        is_match(x, m, y, groups, digit as int - '0' as int, captured),
        is_plain(a),
        encode_utf8(x).len() + encode_utf8(a).len() + encode_utf8(captured).len() + encode_utf8(
            y,
        ).len() <= transform::MAX_TRANSFORM_OUTPUT_BYTES,
    ensures
        formatted(
            x + m + y,
            seq!['$', '{', digit] + (seq![':', '+'] + a) + seq!['}'],
            global,
            seq![Some(groups)],
        ) == formatted(
            x + m + y,
            seq!['$', '{', digit] + (seq![':', '?'] + a + seq![':']) + seq!['}'],
            global,
            seq![Some(groups)],
        ),
{
    let empty = Seq::<char>::empty();
    assert(encode_utf8(empty) =~= Seq::<u8>::empty());
    assert(seq![':', '?'] + a + seq![':'] + empty =~= seq![':', '?'] + a + seq![':']);
    law_conditional_insertions(x, m, y, groups, digit, captured, a, empty, global);
}

/// `${n}` and `$n` are what the group captured, and a plain text is itself.
#[verifier::rlimit(30)]
pub proof fn law_copies(
    x: Seq<char>,
    m: Seq<char>,
    y: Seq<char>,
    groups: Seq<Option<(int, int)>>,
    digit: char,
    captured: Seq<char>,
    a: Seq<char>,
    global: bool,
)
    requires
        '1' <= digit <= '9',
        is_match(x, m, y, groups, digit as int - '0' as int, captured),
        is_plain(a),
        encode_utf8(x).len() + encode_utf8(a).len() + encode_utf8(captured).len() + encode_utf8(
            y,
        ).len() <= transform::MAX_TRANSFORM_OUTPUT_BYTES,
    ensures
        formatted(x + m + y, seq!['$', '{', digit, '}'], global, seq![Some(groups)]) == x + captured
            + y,
        formatted(x + m + y, seq!['$', digit], global, seq![Some(groups)]) == x + captured + y,
        formatted(x + m + y, a, global, seq![Some(groups)]) == x + a + y,
{
    let n = (digit as int - '0' as int) as usize;
    let empty = Seq::<char>::empty();
    let none = Seq::<PartModel>::empty();
    assert(encode_utf8(empty) =~= Seq::<u8>::empty());
    let t = encode_utf8(x + m + y);
    lemma_captured(x, m, y, groups, n as int, captured);
    lemma_one_digit(seq![digit], 0);
    assert(seq![digit] + empty =~= seq![digit]);
    assert(seq!['$', '{', digit] + empty + seq!['}'] =~= seq!['$', '{', digit, '}']);
    lemma_one_expression(x, m, y, groups, digit, captured, empty, OperationModel::Copy, captured, global);
    {
        let src = seq!['$', digit];
        lemma_one_digit(src, 1);
        let part = PartModel::Capture(n, OperationModel::Copy);
        assert(transform::expression_at(src, 0) == Some((part, 2int)));
        assert(transform::flushed(none, empty).push(part) =~= seq![part]);
        assert(transform::format_from(src, 2, seq![part], empty) == seq![part]);
        assert(transform::format_from(src, 0, none, empty) == seq![part]);
        reveal_with_fuel(transform::rendered, 2);
        assert(transform::rendered(x, t, seq![part], groups, 1) == Some(x + captured));
        lemma_one_match(x, m, y, seq![part], groups, global, captured);
    }
    lemma_plain_format(a, 0, empty);
    assert(empty + a.skip(0) =~= a);
    let parts = transform::format_from(a, 0, none, empty);
    if a.len() == 0 {
        assert(parts =~= none);
        assert(x + a =~= x);
        lemma_one_match(x, m, y, parts, groups, global, a);
    } else {
        assert(parts =~= seq![PartModel::Text(a)]);
        reveal_with_fuel(transform::rendered, 2);
        assert(transform::rendered(x, t, parts, groups, 1) == Some(x + a));
        lemma_one_match(x, m, y, parts, groups, global, a);
    }
}

proof fn lemma_plain_format(a: Seq<char>, from: int, held: Seq<char>)
    requires
        0 <= from <= a.len(),
        is_plain(a),
    ensures
        transform::format_from(a, from, Seq::empty(), held) == transform::flushed(
            Seq::empty(),
            held + a.skip(from),
        ),
    decreases a.len() - from,
{
    if from < a.len() {
        assert(a[from] != '\\');
        lemma_plain_format(a, from + 1, held.push(a[from]));
        assert(held.push(a[from]) + a.skip(from + 1) =~= held + a.skip(from));
    } else {
        assert(held + a.skip(from) =~= held);
    }
}

/// A text with a backslash in front of each character that stands for something.
pub open spec fn escaped(s: Seq<char>) -> Seq<char>
    decreases s.len(),
{
    if s.len() == 0 {
        Seq::empty()
    } else {
        let c = s.last();
        escaped(s.drop_last()) + if c == '\\' || c == '$' || c == '}' || c == '/' || c == ':' {
            seq!['\\', c]
        } else {
            seq![c]
        }
    }
}

/// Reading a value takes back its escapes.
pub proof fn law_escapes_are_read_back(s: Seq<char>)
    ensures
        transform::unescaped(escaped(s), 0) == s,
{
    let empty = Seq::<char>::empty();
    lemma_escapes(s, empty);
    assert(escaped(s) + empty =~= escaped(s));
    assert(s + transform::unescaped(empty, 0) =~= s);
}

proof fn lemma_escapes(s: Seq<char>, rest: Seq<char>)
    ensures
        transform::unescaped(escaped(s) + rest, 0) == s + transform::unescaped(rest, 0),
    decreases s.len(),
{
    if s.len() == 0 {
        assert(escaped(s) + rest =~= rest);
        assert(s + transform::unescaped(rest, 0) =~= transform::unescaped(rest, 0));
    } else {
        let c = s.last();
        let own = if c == '\\' || c == '$' || c == '}' || c == '/' || c == ':' {
            seq!['\\', c]
        } else {
            seq![c]
        };
        lemma_escapes(s.drop_last(), own + rest);
        assert(escaped(s) + rest =~= escaped(s.drop_last()) + (own + rest));
        let all = own + rest;
        lemma_unescaped_shift(all, own.len() as int);
        assert(all.skip(own.len() as int) =~= rest);
        assert(transform::unescaped(all, 0) =~= seq![c] + transform::unescaped(rest, 0));
        assert(s.drop_last() + (seq![c] + transform::unescaped(rest, 0)) =~= s
            + transform::unescaped(rest, 0));
    }
}

proof fn lemma_unescaped_shift(src: Seq<char>, k: int)
    requires
        0 <= k <= src.len(),
    ensures
        transform::unescaped(src, k) == transform::unescaped(src.skip(k), 0),
{
    lemma_unescaped_from(src, k, k);
}

proof fn lemma_unescaped_from(src: Seq<char>, k: int, from: int)
    requires
        0 <= k <= from,
        k <= src.len(),
    ensures
        transform::unescaped(src, from) == transform::unescaped(src.skip(k), from - k),
    decreases src.len() - from,
{
    if from < src.len() {
        lemma_unescaped_from(src, k, from + 1);
        if from + 1 < src.len() {
            lemma_unescaped_from(src, k, from + 2);
        }
    }
}

/// Only the first match is rewritten without the flag for all of them.
pub proof fn law_first_match_only(
    value: Seq<char>,
    parts: Seq<PartModel>,
    matches: Seq<Option<Seq<Option<(int, int)>>>>,
)
    requires
        matches.len() > 0,
    ensures
        transform::transformed(value, parts, false, matches) == transform::transformed(
            value,
            parts,
            false,
            seq![matches[0]],
        ),
{
    reveal_with_fuel(transform::rewritten, 2);
    assert(transform::rewritten(value, parts, matches, 1) == transform::rewritten(
        value,
        parts,
        seq![matches[0]],
        1,
    ));
}

/// With that flag each match becomes the text, and what stands between them stays.
#[verifier::rlimit(30)]
pub proof fn law_every_match_is_rewritten(
    x: Seq<char>,
    m: Seq<char>,
    y: Seq<char>,
    m2: Seq<char>,
    z: Seq<char>,
    a: Seq<char>,
)
    requires
        is_plain(a),
        a.len() > 0,
        encode_utf8(x).len() + 2 * encode_utf8(a).len() + encode_utf8(y).len() + encode_utf8(z).len()
            <= transform::MAX_TRANSFORM_OUTPUT_BYTES,
    ensures
        ({
            let i = encode_utf8(x).len() as int;
            let j = i + encode_utf8(m).len();
            let k = j + encode_utf8(y).len();
            let l = k + encode_utf8(m2).len();
            formatted(
                x + m + y + m2 + z,
                a,
                true,
                seq![Some(seq![Some((i, j))]), Some(seq![Some((k, l))])],
            ) == x + a + y + a + z
        }),
{
    let value = x + m + y + m2 + z;
    let t = encode_utf8(value);
    let empty = Seq::<char>::empty();
    assert(encode_utf8(empty) =~= Seq::<u8>::empty());
    let i = encode_utf8(x).len() as int;
    let j = i + encode_utf8(m).len();
    let k = j + encode_utf8(y).len();
    let l = k + encode_utf8(m2).len();
    let matches = seq![Some(seq![Some((i, j))]), Some(seq![Some((k, l))])];
    text::lemma_encode_concat(x + m + y + m2, z);
    text::lemma_encode_concat(x + m + y, m2);
    text::lemma_encode_concat(x + m, y);
    text::lemma_encode_concat(x, m);
    encode_utf8_valid_utf8(value);
    encode_utf8_decode_utf8(x);
    encode_utf8_decode_utf8(y);
    encode_utf8_decode_utf8(z);
    assert(t.subrange(0, i) =~= encode_utf8(x));
    assert(t.subrange(j, k) =~= encode_utf8(y));
    assert(t.subrange(l, t.len() as int) =~= encode_utf8(z));
    crate::lsp::linked_editing::lemma_char_boundary(value, x.len() as int);
    crate::lsp::linked_editing::lemma_char_boundary(value, (x + m).len() as int);
    crate::lsp::linked_editing::lemma_char_boundary(value, (x + m + y).len() as int);
    crate::lsp::linked_editing::lemma_char_boundary(value, (x + m + y + m2).len() as int);
    assert(value.take(x.len() as int) =~= x);
    assert(value.take((x + m).len() as int) =~= x + m);
    assert(value.take((x + m + y).len() as int) =~= x + m + y);
    assert(value.take((x + m + y + m2).len() as int) =~= x + m + y + m2);
    lemma_plain_format(a, 0, empty);
    assert(empty + a.skip(0) =~= a);
    let parts = seq![PartModel::Text(a)];
    assert(transform::flushed(Seq::empty(), a) =~= parts);
    assert(empty + x =~= x);
    text::lemma_encode_concat(x, a);
    text::lemma_encode_concat(x + a, y);
    text::lemma_encode_concat(x + a + y, a);
    reveal_with_fuel(transform::rewritten, 3);
    reveal_with_fuel(transform::rendered, 2);
    assert(transform::rewritten(value, parts, matches, 1) == Some(
        transform::Rewrite { output: x + a, end: j },
    ));
    assert(transform::rewritten(value, parts, matches, 2) == Some(
        transform::Rewrite { output: x + a + y + a, end: l },
    ));
}

/// A value without a match stays, but for a format that says what to put where
/// nothing was captured: that is put in its place.
#[verifier::rlimit(30)]
pub proof fn law_value_without_match(value: Seq<char>, digit: char, a: Seq<char>, global: bool)
    requires
        '1' <= digit <= '9',
        is_plain(a),
        encode_utf8(a).len() <= transform::MAX_TRANSFORM_OUTPUT_BYTES,
    ensures
        formatted(value, a, global, Seq::empty()) == value,
        formatted(
            value,
            seq!['$', '{', digit] + (seq![':', '+'] + a) + seq!['}'],
            global,
            Seq::empty(),
        ) == value,
        formatted(
            value,
            seq!['$', '{', digit] + (seq![':', '-'] + a) + seq!['}'],
            global,
            Seq::empty(),
        ) == a,
{
    let empty = Seq::<char>::empty();
    let none = Seq::<PartModel>::empty();
    assert(encode_utf8(empty) =~= Seq::<u8>::empty());
    lemma_plain_format(a, 0, empty);
    assert(empty + a.skip(0) =~= a);
    lemma_plain_value(a, 0);
    assert(a.skip(0) =~= a);
    let n = (digit as int - '0' as int) as usize;
    {
        let tail = seq![':', '+'] + a;
        let body = seq![digit] + tail;
        lemma_one_digit(body, 0);
        assert(body.skip(2).skip(1) =~= a);
        assert(body.skip(2)[0] == '+');
        assert forall|i: int| 0 <= i < tail.len() implies #[trigger] tail[i] != '\\' && tail[i]
            != '}' by {
            if i >= 2 {
                assert(tail[i] == a[i - 2]);
            }
        }
        lemma_braced(digit, tail);
        let parts = seq![PartModel::Capture(n, OperationModel::If(a))];
        assert(!transform::has_else(parts));
    }
    {
        let tail = seq![':', '-'] + a;
        let body = seq![digit] + tail;
        lemma_one_digit(body, 0);
        assert(body.skip(2).skip(1) =~= a);
        assert(body.skip(2)[0] == '-');
        assert forall|i: int| 0 <= i < tail.len() implies #[trigger] tail[i] != '\\' && tail[i]
            != '}' by {
            if i >= 2 {
                assert(tail[i] == a[i - 2]);
            }
        }
        lemma_braced(digit, tail);
        let parts = seq![PartModel::Capture(n, OperationModel::Else(a))];
        assert(parts[0] == PartModel::Capture(n, OperationModel::Else(a)));
        assert(transform::has_else(parts));
        reveal_with_fuel(transform::rendered, 2);
        assert(empty + a =~= a);
        assert(transform::rendered(empty, encode_utf8(value), parts, Seq::empty(), 1) == Some(a));
    }
}

/// Only letters and digits.
pub open spec fn is_word(w: Seq<char>) -> bool {
    w.len() > 0 && forall|i: int| 0 <= i < w.len() ==> chars::char_is_alphanumeric(#[trigger] w[i])
}

/// The word with the first character as `char::to_uppercase` gives it.
pub open spec fn with_capital(w: Seq<char>) -> Seq<char> {
    chars::char_uppercase(w[0]) + w.skip(1)
}

proof fn lemma_words_skip(s: Seq<char>, from: int, to: int, end: int)
    requires
        0 <= from <= to <= end <= s.len(),
        forall|i: int| to <= i < end ==> chars::char_is_alphanumeric(#[trigger] s[i]),
    ensures
        transform::words_from(s, from, to) == transform::words_from(s, from, end),
    decreases end - to,
{
    if to < end {
        assert(chars::char_is_alphanumeric(s[to]));
        lemma_words_skip(s, from, to + 1, end);
    }
}

proof fn lemma_words_shift(s: Seq<char>, k: int, from: int, to: int)
    requires
        0 <= k <= from <= to,
        k <= s.len(),
    ensures
        transform::words_from(s, from, to) == transform::words_from(s.skip(k), from - k, to - k),
    decreases s.len() - to,
{
    let r = s.skip(k);
    if to < s.len() {
        assert(r[to - k] == s[to]);
        if chars::char_is_alphanumeric(s[to]) {
            lemma_words_shift(s, k, from, to + 1);
        } else {
            lemma_words_shift(s, k, to + 1, to + 1);
            if from < to {
                assert(s.subrange(from, to) =~= r.subrange(from - k, to - k));
            }
        }
    } else if from < s.len() {
        assert(s.subrange(from, s.len() as int) =~= r.subrange(from - k, r.len() as int));
    }
}

#[verifier::rlimit(30)]
proof fn lemma_joined_first(w: Seq<char>, words: Seq<Seq<char>>, camel: bool, n: int)
    requires
        0 <= n <= words.len(),
    ensures
        transform::joined_words(seq![w] + words, camel, n + 1) == (if camel {
            transform::lower_first(w)
        } else {
            transform::capitalized(w)
        }) + transform::joined_words(words, false, n),
    decreases n,
{
    let all = seq![w] + words;
    let first = if camel {
        transform::lower_first(w)
    } else {
        transform::capitalized(w)
    };
    if n > 0 {
        lemma_joined_first(w, words, camel, n - 1);
        assert(all[n] == words[n - 1]);
        let own = transform::capitalized(words[n - 1]);
        assert(transform::joined_words(all, camel, n + 1) == transform::joined_words(all, camel, n)
            + own);
        assert(first + transform::joined_words(words, false, n - 1) + own =~= first + (
        transform::joined_words(words, false, n - 1) + own));
    } else {
        assert(transform::joined_words(all, camel, 0) =~= Seq::empty());
        assert(Seq::<char>::empty() + first =~= first);
        assert(first + Seq::<char>::empty() =~= first);
    }
}

/// In pascal case the words of a value are joined with their first characters made
/// capitals, in camel case but for that of the first word, which is made small;
/// what is neither letter nor digit only parts the words.
#[verifier::rlimit(30)]
pub proof fn law_words_are_joined(w: Seq<char>, separator: char, rest: Seq<char>)
    requires
        is_word(w),
        !chars::char_is_alphanumeric(separator),
    ensures
        transform::cased(w, "pascalcase"@) == with_capital(w),
        transform::cased(w, "camelcase"@) == chars::char_lowercase(w[0]) + w.skip(1),
        transform::cased(w + seq![separator] + rest, "pascalcase"@) == with_capital(w)
            + transform::cased(rest, "pascalcase"@),
        transform::cased(w + seq![separator] + rest, "camelcase"@) == chars::char_lowercase(w[0])
            + w.skip(1) + transform::cased(rest, "pascalcase"@),
        transform::cased(seq![separator] + rest, "pascalcase"@) == transform::cased(
            rest,
            "pascalcase"@,
        ),
        transform::cased(seq![separator] + rest, "camelcase"@) == transform::cased(
            rest,
            "camelcase"@,
        ),
{
    reveal_strlit("upcase");
    reveal_strlit("downcase");
    reveal_strlit("capitalize");
    reveal_strlit("pascalcase");
    reveal_strlit("camelcase");
    assert("pascalcase"@[0] != "upcase"@[0]);
    assert("pascalcase"@[0] != "downcase"@[0]);
    assert("pascalcase"@[0] != "capitalize"@[0]);
    assert("camelcase"@[0] != "upcase"@[0]);
    assert("camelcase"@[0] != "downcase"@[0]);
    assert("camelcase"@[2] != "capitalize"@[2]);
    assert("camelcase"@[0] != "pascalcase"@[0]);
    let empty = Seq::<Seq<char>>::empty();
    // One word alone.
    lemma_words_skip(w, 0, 0, w.len() as int);
    assert(w.subrange(0, w.len() as int) =~= w);
    assert(transform::words_from(w, 0, 0) =~= seq![w] + empty);
    lemma_joined_first(w, empty, false, 0);
    lemma_joined_first(w, empty, true, 0);
    assert(transform::joined_words(empty, false, 0) =~= Seq::<char>::empty());
    assert(with_capital(w) + Seq::<char>::empty() =~= with_capital(w));
    assert(transform::lower_first(w) + Seq::<char>::empty() =~= transform::lower_first(w));
    // A word in front of others.
    let s = w + seq![separator] + rest;
    let k: int = w.len() as int + 1;
    assert forall|i: int| 0 <= i < w.len() implies chars::char_is_alphanumeric(#[trigger] s[i]) by {
        assert(s[i] == w[i]);
    }
    lemma_words_skip(s, 0, 0, w.len() as int);
    assert(s[w.len() as int] == separator);
    assert(s.subrange(0, w.len() as int) =~= w);
    lemma_words_shift(s, k, k, k);
    assert(s.skip(k) =~= rest);
    let words = transform::words_from(rest, 0, 0);
    assert(transform::words_from(s, 0, 0) == seq![w] + words);
    lemma_joined_first(w, words, false, words.len() as int);
    lemma_joined_first(w, words, true, words.len() as int);
    // Only a separator in front.
    let r = seq![separator] + rest;
    lemma_words_shift(r, 1, 1, 1);
    assert(r.skip(1) =~= rest);
    assert(transform::words_from(r, 0, 0) == words);
}

/// The other cases: all capitals, all small, a capital first; a name that is not
/// known leaves the value as it is.
pub proof fn law_cases(s: Seq<char>, case: Seq<char>)
    ensures
        transform::cased(s, "upcase"@) == chars::uppercase(s),
        transform::cased(s, "downcase"@) == chars::lowercase(s),
        s.len() > 0 ==> transform::cased(s, "capitalize"@) == with_capital(s),
        transform::cased(Seq::empty(), "capitalize"@) == Seq::<char>::empty(),
        case != "upcase"@ && case != "downcase"@ && case != "capitalize"@ && case != "pascalcase"@
            && case != "camelcase"@ && case != "snakecase"@ && case != "kebabcase"@
            ==> transform::cased(s, case) == s,
{
    reveal_strlit("upcase");
    reveal_strlit("downcase");
    reveal_strlit("capitalize");
    assert("downcase"@[0] != "upcase"@[0]);
    assert("capitalize"@[0] != "upcase"@[0]);
    assert("capitalize"@[0] != "downcase"@[0]);
}

/// Small letters that stay as they are in small case.
pub open spec fn is_small(w: Seq<char>) -> bool {
    w.len() > 0 && forall|i: int|
        0 <= i < w.len() ==> {
            &&& chars::char_is_alphanumeric(#[trigger] w[i])
            &&& chars::char_is_lowercase(w[i])
            &&& !chars::char_is_uppercase(w[i])
            &&& chars::char_lowercase(w[i]) == seq![w[i]]
            &&& !chars::is_whitespace(w[i])
            &&& w[i] != '-'
            &&& w[i] != '_'
        }
}

#[verifier::rlimit(30)]
proof fn lemma_snake_small(s: Seq<char>, from: int, n: int)
    requires
        0 <= from <= n <= s.len(),
        from < n ==> is_small(s.subrange(from, n)),
        !transform::snake_model(s, from).pending,
    ensures
        transform::snake_model(s, n).output == transform::snake_model(s, from).output + s.subrange(
            from,
            n,
        ),
        !transform::snake_model(s, n).pending,
        from < n ==> transform::snake_model(s, n).previous_was_lower,
    decreases n - from,
{
    if from < n {
        let part = s.subrange(from, n);
        assert(part[n - 1 - from] == s[n - 1]);
        if from < n - 1 {
            assert forall|i: int| 0 <= i < s.subrange(from, n - 1).len() implies {
                &&& chars::char_is_alphanumeric(#[trigger] s.subrange(from, n - 1)[i])
                &&& chars::char_is_lowercase(s.subrange(from, n - 1)[i])
                &&& !chars::char_is_uppercase(s.subrange(from, n - 1)[i])
                &&& chars::char_lowercase(s.subrange(from, n - 1)[i]) == seq![
                    s.subrange(from, n - 1)[i],
                ]
                &&& !chars::is_whitespace(s.subrange(from, n - 1)[i])
                &&& s.subrange(from, n - 1)[i] != '-'
                &&& s.subrange(from, n - 1)[i] != '_'
            } by {
                assert(part[i] == s.subrange(from, n - 1)[i]);
            }
        }
        lemma_snake_small(s, from, n - 1);
        assert(s.subrange(from, n) =~= s.subrange(from, n - 1).push(s[n - 1]));
        assert(transform::snake_model(s, n).output =~= transform::snake_model(s, from).output
            + s.subrange(from, n));
    } else {
        assert(transform::snake_model(s, n).output =~= transform::snake_model(s, from).output
            + s.subrange(from, n));
    }
}

proof fn lemma_not_trimmed(s: Seq<char>, c: char)
    requires
        s.len() > 0,
        s[0] != c,
        s.last() != c,
    ensures
        transform::trimmed(s, c) == s,
{
    assert(s.subrange(0, s.len() as int) =~= s);
}

/// In snake case an underscore parts two words where a hyphen or white space
/// stood, and where a capital followed a small letter, which becomes small.
#[verifier::rlimit(30)]
pub proof fn law_snake_case(a: Seq<char>, separator: char, b: Seq<char>, capital: char, small: char)
    requires
        is_small(a),
        is_small(b),
        separator == '-' || chars::is_whitespace(separator),
        chars::char_is_uppercase(capital),
        !chars::char_is_lowercase(capital),
        !chars::is_whitespace(capital),
        capital != '-',
        chars::char_lowercase(capital) == seq![small],
    ensures
        transform::cased(a, "snakecase"@) == a,
        transform::cased(a + seq![separator] + b, "snakecase"@) == a + seq!['_'] + b,
        transform::cased(a + seq![capital] + b, "snakecase"@) == a + seq!['_', small] + b,
{
    reveal_strlit("upcase");
    reveal_strlit("downcase");
    reveal_strlit("capitalize");
    reveal_strlit("pascalcase");
    reveal_strlit("camelcase");
    reveal_strlit("snakecase");
    assert("snakecase"@[0] == 's');
    assert("upcase"@[0] == 'u' && "downcase"@[0] == 'd' && "capitalize"@[0] == 'c');
    assert("pascalcase"@[0] == 'p' && "camelcase"@[0] == 'c');
    let empty = Seq::<char>::empty();
    let n = a.len() as int;
    assert(a.subrange(0, n) =~= a);
    lemma_snake_small(a, 0, n);
    assert(empty + a =~= a);
    assert(a[0] != '_' && a[n - 1] != '_');
    lemma_not_trimmed(a, '_');
    {
        let s = a + seq![separator] + b;
        assert(s.subrange(0, n) =~= a);
        lemma_snake_small(s, 0, n);
        let m = transform::snake_model(s, n + 1);
        assert(s[n] == separator);
        assert(m.output == a && m.pending && !m.previous_was_lower);
        assert(s[n + 1] == b[0]);
        let first = transform::snake_model(s, n + 2);
        assert(chars::char_lowercase(b[0]) == seq![b[0]]);
        assert(first.output =~= a + seq!['_', b[0]]);
        if b.len() > 1 {
            lemma_tail_small(b);
            assert(s.subrange(n + 2, s.len() as int) =~= b.skip(1));
        }
        lemma_snake_small(s, n + 2, s.len() as int);
        assert(transform::snake_model(s, s.len() as int).output =~= a + seq!['_'] + b);
        assert((a + seq!['_'] + b).last() == b.last());
        lemma_not_trimmed(a + seq!['_'] + b, '_');
    }
    {
        let s = a + seq![capital] + b;
        assert(s.subrange(0, n) =~= a);
        lemma_snake_small(s, 0, n);
        assert(s[n] == capital);
        let m = transform::snake_model(s, n + 1);
        assert(m.output =~= a + seq!['_', small]);
        assert(s.subrange(n + 1, s.len() as int) =~= b);
        lemma_snake_small(s, n + 1, s.len() as int);
        assert(transform::snake_model(s, s.len() as int).output =~= a + seq!['_', small] + b);
        assert((a + seq!['_', small] + b).last() == b.last());
        lemma_not_trimmed(a + seq!['_', small] + b, '_');
    }
}

proof fn lemma_tail_small(b: Seq<char>)
    requires
        is_small(b),
        b.len() > 1,
    ensures
        is_small(b.skip(1)),
{
    let r = b.skip(1);
    assert forall|i: int| 0 <= i < r.len() implies {
        &&& chars::char_is_alphanumeric(#[trigger] r[i])
        &&& chars::char_is_lowercase(r[i])
        &&& !chars::char_is_uppercase(r[i])
        &&& chars::char_lowercase(r[i]) == seq![r[i]]
        &&& !chars::is_whitespace(r[i])
        &&& r[i] != '-'
        &&& r[i] != '_'
    } by {
        assert(r[i] == b[i + 1]);
    }
}

proof fn lemma_kebab_small(s: Seq<char>, from: int, n: int)
    requires
        0 <= from <= n <= s.len(),
        from < n ==> is_small(s.subrange(from, n)),
    ensures
        transform::kebab_from(s, n) == transform::kebab_from(s, from) + s.subrange(from, n),
    decreases n - from,
{
    if from < n {
        let part = s.subrange(from, n);
        assert(part[n - 1 - from] == s[n - 1]);
        if from < n - 1 {
            let shorter = s.subrange(from, n - 1);
            assert forall|i: int| 0 <= i < shorter.len() implies {
                &&& chars::char_is_alphanumeric(#[trigger] shorter[i])
                &&& chars::char_is_lowercase(shorter[i])
                &&& !chars::char_is_uppercase(shorter[i])
                &&& chars::char_lowercase(shorter[i]) == seq![shorter[i]]
                &&& !chars::is_whitespace(shorter[i])
                &&& shorter[i] != '-'
                &&& shorter[i] != '_'
            } by {
                assert(part[i] == shorter[i]);
            }
        }
        lemma_kebab_small(s, from, n - 1);
        assert(transform::kebab_from(s, n) =~= transform::kebab_from(s, from) + s.subrange(from, n));
    } else {
        assert(transform::kebab_from(s, n) =~= transform::kebab_from(s, from) + s.subrange(from, n));
    }
}

/// In kebab case a hyphen parts two words where anything but letters and digits
/// stood, and where a capital followed a small letter, which becomes small.
#[verifier::rlimit(30)]
pub proof fn law_kebab_case(a: Seq<char>, separator: char, b: Seq<char>, capital: char, small: char)
    requires
        is_small(a),
        is_small(b),
        !chars::char_is_alphanumeric(separator),
        chars::char_is_uppercase(capital),
        chars::char_is_alphanumeric(capital),
        chars::char_lowercase(capital) == seq![small],
    ensures
        transform::cased(a, "kebabcase"@) == a,
        transform::cased(a + seq![separator] + b, "kebabcase"@) == a + seq!['-'] + b,
        transform::cased(a + seq![capital] + b, "kebabcase"@) == a + seq!['-', small] + b,
{
    reveal_strlit("upcase");
    reveal_strlit("downcase");
    reveal_strlit("capitalize");
    reveal_strlit("pascalcase");
    reveal_strlit("camelcase");
    reveal_strlit("snakecase");
    reveal_strlit("kebabcase");
    assert("kebabcase"@[0] == 'k');
    assert("upcase"@[0] == 'u' && "downcase"@[0] == 'd' && "capitalize"@[0] == 'c');
    assert("pascalcase"@[0] == 'p' && "camelcase"@[0] == 'c' && "snakecase"@[0] == 's');
    let empty = Seq::<char>::empty();
    let n = a.len() as int;
    assert(a.subrange(0, n) =~= a);
    lemma_kebab_small(a, 0, n);
    assert(empty + a =~= a);
    assert(a[0] != '-' && a[n - 1] != '-');
    lemma_not_trimmed(a, '-');
    {
        let s = a + seq![separator] + b;
        assert(s.subrange(0, n) =~= a);
        lemma_kebab_small(s, 0, n);
        assert(s[n] == separator);
        assert(transform::kebab_from(s, n + 1) =~= a + seq!['-']);
        assert(s.subrange(n + 1, s.len() as int) =~= b);
        lemma_kebab_small(s, n + 1, s.len() as int);
        assert((a + seq!['-'] + b).last() == b.last());
        assert(b.last() != '-');
        lemma_not_trimmed(a + seq!['-'] + b, '-');
    }
    {
        let s = a + seq![capital] + b;
        assert(s.subrange(0, n) =~= a);
        lemma_kebab_small(s, 0, n);
        assert(s[n] == capital);
        assert(s[n - 1] == a[n - 1]);
        assert(chars::char_is_lowercase(a[n - 1]));
        assert(transform::starts_word(s, n));
        assert(transform::kebab_from(s, n + 1) =~= a + seq!['-', small]);
        assert(s.subrange(n + 1, s.len() as int) =~= b);
        lemma_kebab_small(s, n + 1, s.len() as int);
        assert((a + seq!['-', small] + b).last() == b.last());
        assert(b.last() != '-');
        lemma_not_trimmed(a + seq!['-', small] + b, '-');
    }
}

/// What one kind of character at its ends is taken from a text, and no more.
pub proof fn law_trimmed(s: Seq<char>, c: char)
    ensures
        ({
            let r = transform::trimmed(s, c);
            &&& r.len() > 0 ==> r[0] != c && r.last() != c
            &&& r.len() <= s.len()
        }),
{
    lemma_trimmed_start(s, c, 0);
    let start = transform::leading_end(s, c, 0);
    lemma_trimmed_end(s, c, start, s.len() as int);
}

proof fn lemma_trimmed_start(s: Seq<char>, c: char, from: int)
    requires
        0 <= from <= s.len(),
    ensures
        from <= transform::leading_end(s, c, from) <= s.len(),
        transform::leading_end(s, c, from) < s.len() ==> s[transform::leading_end(s, c, from)] != c,
    decreases s.len() - from,
{
    if from < s.len() && s[from] == c {
        lemma_trimmed_start(s, c, from + 1);
    }
}

proof fn lemma_trimmed_end(s: Seq<char>, c: char, least: int, n: int)
    requires
        0 <= least <= n <= s.len(),
    ensures
        least <= transform::trailing_start(s, c, least, n) <= n,
        transform::trailing_start(s, c, least, n) > least ==> s[transform::trailing_start(
            s,
            c,
            least,
            n,
        ) - 1] != c,
    decreases n,
{
    if n > least && s[n - 1] == c {
        lemma_trimmed_end(s, c, least, n - 1);
    }
}

} // verus!

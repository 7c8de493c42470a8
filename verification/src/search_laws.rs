//! What searching and replacing come to.

use crate::chars;
use crate::edit;
use crate::lsp::linked_editing;
use crate::matching;
use crate::scalars;
use crate::search;
use crate::search::{QueryModel, SearchMatcher};
use crate::text;
use vstd::prelude::*;
use vstd::utf8::*;

verus! {

/// A letter, a digit or an underscore.
pub open spec fn is_of_word(c: char) -> bool {
    c == '_' || chars::char_is_alphanumeric(c)
}

/// The part `m` of `x + m + y` begins with a character of a word that another one
/// stands before, or ends with one that another one follows.
pub open spec fn cuts_word(x: Seq<char>, m: Seq<char>, y: Seq<char>) -> bool {
    ||| m.len() > 0 && x.len() > 0 && is_of_word(x.last()) && is_of_word(m[0])
    ||| m.len() > 0 && y.len() > 0 && is_of_word(m.last()) && is_of_word(y[0])
}

/// The span of the part `m` of `x + m + y`.
pub open spec fn span_of(x: Seq<char>, m: Seq<char>) -> (int, int) {
    (encode_utf8(x).len() as int, (encode_utf8(x).len() + encode_utf8(m).len()) as int)
}

/// What the query finds before whole words are asked for.
pub open spec fn plain_matches(
    text: Seq<char>,
    query: Seq<char>,
    ignore_case: bool,
    regex: bool,
) -> Seq<(int, int)> {
    if regex {
        match matching::regex_matches(
            query,
            ignore_case,
            true,
            search::MAX_REGEX_COMPILED_BYTES,
            search::MAX_REGEX_COMPILED_BYTES,
            text,
        ) {
            Some(spans) => spans,
            None => Seq::empty(),
        }
    } else {
        matching::literal_matches(encode_utf8(text), encode_utf8(query), ignore_case, 0)
    }
}

#[verifier::rlimit(30)]
proof fn lemma_whole_word(x: Seq<char>, m: Seq<char>, y: Seq<char>)
    ensures
        search::is_whole_word(encode_utf8(x + m + y), span_of(x, m)) <==> m.len() > 0 && !cuts_word(
            x,
            m,
            y,
        ),
{
    let s = x + m + y;
    let t = encode_utf8(s);
    let (start, end) = span_of(x, m);
    let i = x.len() as int;
    let j = i + m.len();
    text::lemma_encode_concat(x + m, y);
    text::lemma_encode_concat(x, m);
    assert(s.take(i) =~= x);
    assert(s.take(j) =~= x + m);
    if m.len() == 0 {
        assert(m =~= Seq::empty());
        assert(encode_utf8(m) =~= Seq::<u8>::empty());
    } else {
        scalars::lemma_char_place(s, i);
        scalars::lemma_char_place(s, j - 1);
        assert(s[i] == m[0]);
        assert(s[j - 1] == m.last());
        if x.len() > 0 {
            scalars::lemma_char_place(s, i - 1);
            assert(s[i - 1] == x.last());
        } else {
            assert(x =~= Seq::empty());
            assert(encode_utf8(x) =~= Seq::<u8>::empty());
        }
        if y.len() > 0 {
            scalars::lemma_char_place(s, j);
            assert(s[j] == y[0]);
        } else {
            assert(y =~= Seq::empty());
            assert(encode_utf8(y) =~= Seq::<u8>::empty());
        }
        linked_editing::lemma_char_boundary(s, j);
    }
}

#[verifier::rlimit(30)]
proof fn lemma_kept(t: Seq<u8>, spans: Seq<(int, int)>, whole_word: bool, n: int, span: (int, int))
    requires
        0 <= n <= spans.len(),
    ensures
        search::kept_spans(t, spans, whole_word, n).contains(span) <==> spans.take(n).contains(span)
            && (whole_word ==> search::is_whole_word(t, span)),
        !whole_word ==> search::kept_spans(t, spans, whole_word, n) == spans.take(n),
    decreases n,
{
    let kept = search::kept_spans(t, spans, whole_word, n);
    if n > 0 {
        lemma_kept(t, spans, whole_word, n - 1, span);
        let before = search::kept_spans(t, spans, whole_word, n - 1);
        let own = spans[n - 1];
        assert(spans.take(n) =~= spans.take(n - 1).push(own));
        if spans.take(n).contains(span) {
            let k = choose|k: int| 0 <= k < n && spans.take(n)[k] == span;
            if k < n - 1 {
                assert(spans.take(n - 1)[k] == span);
            }
        }
        if spans.take(n - 1).contains(span) {
            let k = choose|k: int|
                0 <= k < n - 1 && #[trigger] spans.take(n - 1)[k] == span;
            assert(spans.take(n)[k] == span);
        }
        if own == span {
            assert(spans.take(n)[n - 1] == span);
        }
        if before.contains(span) {
            let k = choose|k: int| 0 <= k < before.len() && before[k] == span;
            assert(kept[k] == span);
        }
        if kept.contains(span) {
            let k = choose|k: int| 0 <= k < kept.len() && kept[k] == span;
            if k < before.len() {
                assert(before[k] == span);
            }
        }
        if !whole_word || search::is_whole_word(t, own) {
            assert(kept.last() == own);
        }
    } else {
        assert(spans.take(0) =~= Seq::empty());
    }
}

/// Where whole words are asked for, a part of the text that the query finds is a
/// match just where it cuts no word: it does not begin with a character of a word
/// that another one stands before, nor end with one that another one follows. Where
/// they are not, everything that the query finds is a match.
pub proof fn law_whole_words(
    before: SearchMatcher,
    after: SearchMatcher,
    query: Seq<char>,
    ignore_case: bool,
    whole_word: bool,
    regex: bool,
    x: Seq<char>,
    m: Seq<char>,
    y: Seq<char>,
)
    requires
        after.is_queried(before, query, ignore_case, whole_word, regex),
        query.len() > 0,
        regex ==> encode_utf8(query).len() <= search::MAX_REGEX_QUERY_BYTES,
        before.text@ == x + m + y,
    ensures
        ({
            let found = plain_matches(before.text@, query, ignore_case, regex);
            let ranges = text::ranges_view(after.matched_ranges@);
            &&& after.text@ == before.text@
            &&& !whole_word ==> ranges == found
            &&& whole_word ==> (ranges.contains(span_of(x, m)) <==> found.contains(span_of(x, m))
                && m.len() > 0 && !cuts_word(x, m, y))
        }),
{
    let found = search::found_spans(after.text@, search::query_model(after.query));
    assert(found =~= plain_matches(before.text@, query, ignore_case, regex));
    let n = found.len() as int;
    let t = encode_utf8(after.text@);
    lemma_kept(t, found, whole_word, n, span_of(x, m));
    assert(found.take(n) =~= found);
    lemma_whole_word(x, m, y);
}

/// Every span from `from` on is one where the needle stands.
spec fn are_places(t: Seq<u8>, needle: Seq<u8>, ignore_case: bool, from: int, found: Seq<(int, int)>) -> bool {
    forall|i: int|
        0 <= i < found.len() ==> from <= (#[trigger] found[i]).0 && found[i].1 == found[i].0
            + needle.len() && matching::stands_at(t, found[i].0, needle, ignore_case)
}

proof fn lemma_places(t: Seq<u8>, needle: Seq<u8>, ignore_case: bool, from: int)
    requires
        0 <= from,
        needle.len() > 0,
    ensures
        are_places(
            t,
            needle,
            ignore_case,
            from,
            matching::literal_matches(t, needle, ignore_case, from),
        ),
    decreases t.len() - from,
{
    let found = matching::literal_matches(t, needle, ignore_case, from);
    if from < t.len() {
        if matching::stands_at(t, from, needle, ignore_case) {
            let next = from + needle.len();
            let rest = matching::literal_matches(t, needle, ignore_case, next);
            lemma_places(t, needle, ignore_case, next);
            assert(found == seq![(from, next)] + rest);
            assert forall|i: int| 0 <= i < found.len() implies from <= (#[trigger] found[i]).0
                && found[i].1 == found[i].0 + needle.len() && matching::stands_at(
                t,
                found[i].0,
                needle,
                ignore_case,
            ) by {
                if i > 0 {
                    assert(found[i] == rest[i - 1]);
                }
            }
        } else {
            lemma_places(t, needle, ignore_case, from + 1);
        }
    }
}

proof fn lemma_covered(t: Seq<u8>, needle: Seq<u8>, ignore_case: bool, from: int, at: int)
    requires
        0 <= from <= at,
        needle.len() > 0,
        matching::stands_at(t, at, needle, ignore_case),
    ensures
        ({
            let found = matching::literal_matches(t, needle, ignore_case, from);
            exists|i: int| 0 <= i < found.len() && (#[trigger] found[i]).0 <= at < found[i].1
        }),
    decreases t.len() - from,
{
    let found = matching::literal_matches(t, needle, ignore_case, from);
    if matching::stands_at(t, from, needle, ignore_case) {
        let next = from + needle.len();
        let rest = matching::literal_matches(t, needle, ignore_case, next);
        assert(found == seq![(from, next)] + rest);
        if at < next {
            assert(found[0] == (from, next));
        } else {
            lemma_covered(t, needle, ignore_case, next, at);
            let k = choose|k: int| 0 <= k < rest.len() && (#[trigger] rest[k]).0 <= at < rest[k].1;
            assert(found[k + 1] == rest[k]);
        }
    } else {
        lemma_covered(t, needle, ignore_case, from + 1, at);
    }
}

/// An ASCII capital made small.
pub open spec fn small_byte(b: u8) -> int {
    if 65 <= b <= 90 {
        b + 32
    } else {
        b as int
    }
}

/// From `at` on the text reads `q`, the case of ASCII letters aside.
pub open spec fn reads_small(t: Seq<u8>, at: int, q: Seq<u8>) -> bool {
    0 <= at && at + q.len() <= t.len() && forall|k: int|
        0 <= k < q.len() ==> small_byte(#[trigger] q[k]) == small_byte(t[at + k])
}

/// From `at` on the text reads `q`.
pub open spec fn reads_at(t: Seq<u8>, at: int, q: Seq<u8>) -> bool {
    0 <= at && at + q.len() <= t.len() && t.subrange(at, at + q.len()) == q
}

#[verifier::rlimit(30)]
proof fn lemma_reads(t: Seq<u8>, at: int, q: Seq<u8>)
    ensures
        matching::stands_at(t, at, q, false) == reads_at(t, at, q),
        matching::stands_at(t, at, q, true) == reads_small(t, at, q),
{
    if matching::stands_at(t, at, q, false) {
        assert forall|k: int| 0 <= k < q.len() implies t.subrange(at, at + q.len())[k] == q[k] by {
            assert(matching::folded(q[k], false) == matching::folded(t[at + k], false));
        }
        assert(t.subrange(at, at + q.len()) =~= q);
    }
    if reads_at(t, at, q) {
        assert forall|k: int| 0 <= k < q.len() implies matching::folded(#[trigger] q[k], false)
            == matching::folded(t[at + k], false) by {
            assert(t.subrange(at, at + q.len())[k] == t[at + k]);
        }
    }
    if matching::stands_at(t, at, q, true) {
        assert forall|k: int| 0 <= k < q.len() implies small_byte(#[trigger] q[k]) == small_byte(
            t[at + k],
        ) by {
            assert(matching::folded(q[k], true) == matching::folded(t[at + k], true));
        }
    }
    if reads_small(t, at, q) {
        assert forall|k: int| 0 <= k < q.len() implies matching::folded(#[trigger] q[k], true)
            == matching::folded(t[at + k], true) by {
            assert(small_byte(q[k]) == small_byte(t[at + k]));
        }
    }
}

/// Without whole words each match of a text reads it, the case of ASCII letters aside
/// where that was asked; and wherever it stands, a match lies, or reaches to there.
#[verifier::rlimit(30)]
pub proof fn law_literal_matches(
    before: SearchMatcher,
    after: SearchMatcher,
    query: Seq<char>,
    ignore_case: bool,
    i: int,
    at: int,
)
    requires
        after.is_queried(before, query, ignore_case, false, false),
        query.len() > 0,
    ensures
        ({
            let t = encode_utf8(before.text@);
            let q = encode_utf8(query);
            let ranges = text::ranges_view(after.matched_ranges@);
            let reads = |o: int| if ignore_case {
                reads_small(t, o, q)
            } else {
                reads_at(t, o, q)
            };
            &&& 0 <= i < ranges.len() ==> ranges[i].1 == ranges[i].0 + q.len() && reads(ranges[i].0)
            &&& reads(at) ==> exists|k: int|
                0 <= k < ranges.len() && (#[trigger] ranges[k]).0 <= at < ranges[k].1
        }),
{
    let t = encode_utf8(before.text@);
    let q = encode_utf8(query);
    let ranges = text::ranges_view(after.matched_ranges@);
    let empty = Seq::<char>::empty();
    if q.len() == 0 {
        encode_utf8_decode_utf8(query);
        encode_utf8_decode_utf8(empty);
        assert(encode_utf8(empty) =~= q);
    }
    assert(before.text@ + empty + empty =~= before.text@);
    law_whole_words(before, after, query, ignore_case, false, false, before.text@, empty, empty);
    lemma_places(t, q, ignore_case, 0);
    if 0 <= i < ranges.len() {
        assert(ranges[i].0 >= 0);
        lemma_reads(t, ranges[i].0, q);
    }
    lemma_reads(t, at, q);
    if matching::stands_at(t, at, q, ignore_case) {
        lemma_covered(t, q, ignore_case, 0, at);
    }
}

/// Nothing is found by an empty query, nor by a regular expression that is refused.
pub proof fn law_refused_queries(
    before: SearchMatcher,
    after: SearchMatcher,
    query: Seq<char>,
    ignore_case: bool,
    whole_word: bool,
    regex: bool,
)
    requires
        after.is_queried(before, query, ignore_case, whole_word, regex),
    ensures
        query.len() == 0 ==> after.matched_ranges@.len() == 0 && !after.query_error,
        after.query_error ==> after.matched_ranges@.len() == 0 && regex,
        regex && encode_utf8(query).len() > 16_384 ==> after.query_error,
        !before.replacing ==> after.current_match_ix == 0,
{
    let empty = Seq::<char>::empty();
    if query.len() == 0 {
        assert(query =~= empty);
        assert(encode_utf8(empty) =~= Seq::<u8>::empty());
    }
    assert(text::ranges_view(after.matched_ranges@).len() == after.matched_ranges@.len());
}

/// The next match is the one behind, and before the first comes the last.
pub proof fn law_next_match_is_behind(count: int, current: int)
    requires
        0 <= current < count,
    ensures
        current + 1 < count ==> search::next_index(count, current) == current + 1,
        search::next_index(count, count - 1) == 0,
        current > 0 ==> search::previous_index(count, current) == current - 1,
        search::previous_index(count, 0) == count - 1,
{
}

/// The current match for an offset is the first that does not end before it, or else
/// the last.
pub proof fn law_match_at_offset(ranges: Seq<(int, int)>, offset: int)
    requires
        ranges.len() > 0,
    ensures
        ({
            let r = search::match_from(ranges, offset, 0);
            &&& 0 <= r < ranges.len()
            &&& forall|k: int| 0 <= k < r ==> (#[trigger] ranges[k]).1 < offset
            &&& ranges[r].1 >= offset || r == ranges.len() - 1
        }),
{
    lemma_match_from(ranges, offset, 0);
}

proof fn lemma_match_from(ranges: Seq<(int, int)>, offset: int, from: int)
    requires
        0 <= from < ranges.len(),
        forall|k: int| 0 <= k < from ==> (#[trigger] ranges[k]).1 < offset,
    ensures
        ({
            let r = search::match_from(ranges, offset, from);
            &&& from <= r < ranges.len()
            &&& forall|k: int| 0 <= k < r ==> (#[trigger] ranges[k]).1 < offset
            &&& ranges[r].1 >= offset || r == ranges.len() - 1
        }),
    decreases ranges.len() - from,
{
    if from + 1 < ranges.len() && ranges[from].1 < offset {
        lemma_match_from(ranges, offset, from + 1);
    }
}

/// A selected text is the query just where it is short and on one line.
pub proof fn law_search_seed(selected: Seq<char>)
    ensures
        (exists|i: int| 0 <= i < selected.len() && (#[trigger] selected[i] == '\n' || selected[i]
            == '\r')) ==> search::search_seed(selected).len() == 0,
        encode_utf8(selected).len() > 16_384 ==> search::search_seed(selected).len() == 0,
        encode_utf8(selected).len() <= 16_384 && (forall|i: int|
            0 <= i < selected.len() ==> #[trigger] selected[i] != '\n' && selected[i] != '\r')
            ==> search::search_seed(selected) == selected,
{
    if exists|i: int| 0 <= i < selected.len() && (#[trigger] selected[i] == '\n' || selected[i]
        == '\r') {
        let i = choose|i: int| 0 <= i < selected.len() && (#[trigger] selected[i] == '\n'
            || selected[i] == '\r');
        assert(selected.contains(selected[i]));
    }
    if encode_utf8(selected).len() == 0 {
        encode_utf8_decode_utf8(selected);
        encode_utf8_decode_utf8(Seq::empty());
        assert(encode_utf8(Seq::<char>::empty()) =~= encode_utf8(selected));
        assert(selected =~= Seq::empty());
    }
}

proof fn lemma_capture_from(s: Seq<char>, k: int, from: int)
    requires
        0 <= k <= from,
        k <= s.len(),
    ensures
        search::uses_capture(s, from) == search::uses_capture(s.skip(k), from - k),
        search::regex_replacement(s, from) == search::regex_replacement(s.skip(k), from - k),
    decreases s.len() - from,
{
    if from < s.len() {
        lemma_capture_from(s, k, from + 1);
        if from + 1 < s.len() {
            lemma_capture_from(s, k, from + 2);
        }
    }
}

/// A replacement names a group where a dollar sign stands before an ampersand, a
/// brace, a letter, a digit or an underscore; of two dollar signs the first only
/// protects the second.
pub proof fn law_references(x: Seq<char>, c: char, y: Seq<char>)
    requires
        forall|i: int| 0 <= i < x.len() ==> #[trigger] x[i] != '$',
    ensures
        !search::uses_capture(x, 0),
        c == '&' || c == '{' || c == '_' || '0' <= c <= '9' || 'a' <= c <= 'z' || 'A' <= c <= 'Z'
            ==> search::uses_capture(x + seq!['$', c] + y, 0),
        search::uses_capture(x + seq!['$', '$'] + y, 0) == search::uses_capture(y, 0),
        c == ' ' || c == '.' || c == '-' ==> search::uses_capture(x + seq!['$', c] + y, 0)
            == search::uses_capture(y, 0),
{
    lemma_no_reference(x, 0, x.len() as int);
    let s = x + seq!['$', c] + y;
    let n = x.len() as int;
    assert forall|i: int| 0 <= i < n implies #[trigger] s[i] != '$' by {
        assert(s[i] == x[i]);
    }
    lemma_no_reference(s, 0, n);
    assert(s[n] == '$' && s[n + 1] == c);
    lemma_capture_from(s, n + 2, n + 2);
    assert(s.skip(n + 2) =~= y);
    let d = x + seq!['$', '$'] + y;
    assert forall|i: int| 0 <= i < n implies #[trigger] d[i] != '$' by {
        assert(d[i] == x[i]);
    }
    lemma_no_reference(d, 0, n);
    assert(d[n] == '$' && d[n + 1] == '$');
    lemma_capture_from(d, n + 2, n + 2);
    assert(d.skip(n + 2) =~= y);
    reveal_with_fuel(search::uses_capture, 3);
}

proof fn lemma_no_reference(s: Seq<char>, from: int, n: int)
    requires
        0 <= from <= n <= s.len(),
        forall|i: int| from <= i < n ==> #[trigger] s[i] != '$',
    ensures
        search::uses_capture(s, from) == search::uses_capture(s, n),
    decreases n - from,
{
    if from < n {
        assert(s[from] != '$');
        lemma_no_reference(s, from + 1, n);
    }
}

/// In a replacement for a regular expression `$&` stands for the whole match, `\n`
/// and `\t` for a line feed and a tab and `\\` for a backslash; the rest stays.
pub proof fn law_replacement_notation(x: Seq<char>, y: Seq<char>)
    requires
        forall|i: int| 0 <= i < x.len() ==> #[trigger] x[i] != '$' && x[i] != '\\',
    ensures
        search::regex_replacement(x, 0) == x,
        search::regex_replacement(x + seq!['$', '&'] + y, 0) == x + seq!['$', '{', '0', '}']
            + search::regex_replacement(y, 0),
        search::regex_replacement(x + seq!['\\', 'n'] + y, 0) == x + seq!['\n']
            + search::regex_replacement(y, 0),
        search::regex_replacement(x + seq!['\\', 't'] + y, 0) == x + seq!['\t']
            + search::regex_replacement(y, 0),
        search::regex_replacement(x + seq!['\\', '\\'] + y, 0) == x + seq!['\\']
            + search::regex_replacement(y, 0),
{
    lemma_notation(x, Seq::empty(), 0);
    assert(x + Seq::<char>::empty() =~= x);
    assert(x.skip(0) + search::regex_replacement(x, x.len() as int) =~= x);
    lemma_escape(x, '$', '&', y, seq!['$', '{', '0', '}']);
    lemma_escape(x, '\\', 'n', y, seq!['\n']);
    lemma_escape(x, '\\', 't', y, seq!['\t']);
    lemma_escape(x, '\\', '\\', y, seq!['\\']);
}

proof fn lemma_escape(x: Seq<char>, c: char, d: char, y: Seq<char>, made: Seq<char>)
    requires
        forall|i: int| 0 <= i < x.len() ==> #[trigger] x[i] != '$' && x[i] != '\\',
        ({
            ||| c == '$' && d == '&' && made == seq!['$', '{', '0', '}']
            ||| c == '\\' && d == 'n' && made == seq!['\n']
            ||| c == '\\' && d == 't' && made == seq!['\t']
            ||| c == '\\' && d == '\\' && made == seq!['\\']
        }),
    ensures
        search::regex_replacement(x + seq![c, d] + y, 0) == x + made + search::regex_replacement(y, 0),
{
    let s = x + seq![c, d] + y;
    let n = x.len() as int;
    lemma_notation(x, seq![c, d] + y, 0);
    assert(s =~= x + (seq![c, d] + y));
    assert(s[n] == c && s[n + 1] == d);
    lemma_capture_from(s, n + 2, n + 2);
    assert(s.skip(n + 2) =~= y);
    assert(x.skip(0) =~= x);
    assert(x + (made + search::regex_replacement(y, 0)) =~= x + made + search::regex_replacement(y, 0));
}

proof fn lemma_notation(x: Seq<char>, rest: Seq<char>, from: int)
    requires
        0 <= from <= x.len(),
        forall|i: int| 0 <= i < x.len() ==> #[trigger] x[i] != '$' && x[i] != '\\',
    ensures
        search::regex_replacement(x + rest, from) == x.skip(from) + search::regex_replacement(
            x + rest,
            x.len() as int,
        ),
    decreases x.len() - from,
{
    let s = x + rest;
    if from < x.len() {
        assert(s[from] == x[from]);
        lemma_notation(x, rest, from + 1);
        assert(x.skip(from) =~= seq![x[from]] + x.skip(from + 1));
        assert(seq![x[from]] + (x.skip(from + 1) + search::regex_replacement(s, x.len() as int))
            =~= x.skip(from) + search::regex_replacement(s, x.len() as int));
    } else {
        assert(x.skip(from) =~= Seq::empty());
        assert(Seq::<char>::empty() + search::regex_replacement(s, x.len() as int)
            =~= search::regex_replacement(s, x.len() as int));
    }
}

/// Neither a hyphen nor an underscore parts the text.
pub open spec fn is_undivided(s: Seq<char>) -> bool {
    forall|i: int| 0 <= i < s.len() ==> #[trigger] s[i] != '-' && s[i] != '_'
}

proof fn lemma_undivided(s: Seq<char>)
    requires
        is_undivided(s),
    ensures
        !s.contains('-'),
        !s.contains('_'),
{
}

/// The case of a match that nothing divides: all capitals or all small letters are
/// kept, and else the case of the first letter; where that has none the replacement
/// stays.
pub proof fn law_case_of_match(matched: Seq<char>, replacement: Seq<char>)
    requires
        is_undivided(matched),
        matched.len() > 0,
        replacement.len() > 0,
    ensures
        ({
            let kept = search::preserved_case(matched, replacement);
            let first = seq![matched[0]];
            let large = chars::char_uppercase(matched[0]) == first;
            let small = chars::char_lowercase(matched[0]) == first;
            &&& chars::uppercase(matched) == matched ==> kept == chars::uppercase(replacement)
            &&& chars::lowercase(matched) == matched && chars::uppercase(matched) != matched ==> kept
                == chars::lowercase(replacement)
            &&& chars::lowercase(matched) != matched && chars::uppercase(matched) != matched ==> {
                &&& large && !small ==> kept == chars::char_uppercase(replacement[0])
                    + replacement.skip(1)
                &&& small && !large ==> kept == chars::char_lowercase(replacement[0])
                    + replacement.skip(1)
                &&& large == small ==> kept == replacement
            }
        }),
        search::preserved_case(Seq::empty(), replacement) == replacement,
        search::preserved_case(matched, Seq::empty()) == Seq::<char>::empty(),
{
    lemma_undivided(matched);
    assert(search::case_by_parts(matched, replacement, '-') is None);
    assert(search::case_by_parts(matched, replacement, '_') is None);
}

proof fn lemma_split_none(s: Seq<char>, separator: char, from: int, to: int)
    requires
        0 <= from <= to <= s.len(),
        forall|i: int| to <= i < s.len() ==> #[trigger] s[i] != separator,
    ensures
        search::split_from(s, separator, from, to) == seq![s.subrange(from, s.len() as int)],
    decreases s.len() - to,
{
    if to < s.len() {
        assert(s[to] != separator);
        lemma_split_none(s, separator, from, to + 1);
    }
}

proof fn lemma_split_at(s: Seq<char>, separator: char, to: int, at: int)
    requires
        0 <= to <= at < s.len(),
        s[at] == separator,
        forall|i: int| to <= i < at ==> #[trigger] s[i] != separator,
    ensures
        search::split_from(s, separator, 0, to) == seq![s.subrange(0, at)] + search::split_from(
            s,
            separator,
            at + 1,
            at + 1,
        ),
    decreases at - to,
{
    if to < at {
        assert(s[to] != separator);
        lemma_split_at(s, separator, to + 1, at);
    }
}

proof fn lemma_split_two(a: Seq<char>, b: Seq<char>, separator: char)
    requires
        separator == '-' || separator == '_',
        is_undivided(a),
        is_undivided(b),
    ensures
        search::split(a + seq![separator] + b, separator) == seq![a, b],
{
    let s = a + seq![separator] + b;
    let n = a.len() as int;
    assert forall|i: int| 0 <= i < n implies #[trigger] s[i] != separator by {
        assert(s[i] == a[i]);
    }
    assert forall|i: int| n + 1 <= i < s.len() implies #[trigger] s[i] != separator by {
        assert(s[i] == b[i - n - 1]);
    }
    lemma_split_at(s, separator, 0, n);
    lemma_split_none(s, separator, n + 1, n + 1);
    assert(s.subrange(0, n) =~= a);
    assert(s.subrange(n + 1, s.len() as int) =~= b);
    assert(seq![a] + seq![b] =~= seq![a, b]);
}

/// A match of two parts with a hyphen or an underscore between them gives each part of
/// the replacement its own case.
#[verifier::rlimit(30)]
pub proof fn law_case_part_by_part(
    a: Seq<char>,
    b: Seq<char>,
    c: Seq<char>,
    d: Seq<char>,
    separator: char,
)
    requires
        separator == '-' || separator == '_',
        is_undivided(a),
        is_undivided(b),
        is_undivided(c),
        is_undivided(d),
    ensures
        search::preserved_case(a + seq![separator] + b, c + seq![separator] + d)
            == search::preserved_case(a, c) + seq![separator] + search::preserved_case(b, d),
{
    let matched = a + seq![separator] + b;
    let replacement = c + seq![separator] + d;
    let other = if separator == '-' {
        '_'
    } else {
        '-'
    };
    assert(matched[a.len() as int] == separator);
    assert(replacement[c.len() as int] == separator);
    assert forall|i: int| 0 <= i < matched.len() implies #[trigger] matched[i] != other by {
        if i < a.len() {
            assert(matched[i] == a[i]);
        } else if i > a.len() {
            assert(matched[i] == b[i - a.len() - 1]);
        }
    }
    assert(!matched.contains(other));
    lemma_split_two(a, b, separator);
    lemma_split_two(c, d, separator);
    let from = seq![a, b];
    let to = seq![c, d];
    let n = matched.len();
    assert(search::case_by_parts(matched, replacement, other) is None);
    assert(search::cased_parts(from, to, n, 0) =~= Seq::<Seq<char>>::empty());
    assert(search::cased_parts(from, to, n, 1) =~= seq![search::preserved_case(a, c)]) by {
        assert(from[0].len() < n);
    }
    assert(search::cased_parts(from, to, n, 2) =~= seq![
        search::preserved_case(a, c),
        search::preserved_case(b, d),
    ]) by {
        assert(from[1].len() < n);
    }
    let parts = seq![search::preserved_case(a, c), search::preserved_case(b, d)];
    assert(search::join(parts, separator, 1) == parts[0]);
    assert(search::join(parts, separator, 2) == parts[0].push(separator) + parts[1]);
    assert(parts[0].push(separator) + parts[1] =~= parts[0] + seq![separator] + parts[1]);
    assert(search::case_by_parts(matched, replacement, separator) == Some(
        parts[0] + seq![separator] + parts[1],
    ));
}

/// What replaces a match of a text: the replacement as it stands, or in the case of
/// the match. A regular expression that names groups keeps no case, and its groups are
/// filled in.
#[verifier::rlimit(30)]
pub proof fn law_replacements(
    x: Seq<char>,
    m: Seq<char>,
    y: Seq<char>,
    query: QueryModel,
    replacement: Seq<char>,
    filled: Seq<char>,
)
    ensures
        ({
            let text = x + m + y;
            let span = span_of(x, m);
            let kept = search::replacement_for(text, Some(query), span, replacement, true);
            let plain = search::replacement_for(text, Some(query), span, replacement, false);
            &&& !query.regex ==> plain == replacement && kept == search::preserved_case(
                m,
                replacement,
            )
            &&& query.regex && matching::regex_expansion(
                query.pattern,
                query.case_insensitive,
                true,
                search::MAX_REGEX_COMPILED_BYTES,
                search::MAX_REGEX_COMPILED_BYTES,
                text,
                span.0 as usize,
                search::regex_replacement(replacement, 0),
            ) == Some((span.0, span.1, filled)) ==> plain == filled && kept == (
            if search::uses_capture(replacement, 0) {
                filled
            } else {
                search::preserved_case(m, filled)
            })
        }),
{
    let text = x + m + y;
    let t = encode_utf8(text);
    text::lemma_encode_concat(x + m, y);
    text::lemma_encode_concat(x, m);
    assert(t.subrange(span_of(x, m).0, span_of(x, m).1) =~= encode_utf8(m));
    encode_utf8_decode_utf8(m);
}

/// Replacing all of two matches leaves what stands around and between them.
pub proof fn law_all_are_replaced(
    x: Seq<u8>,
    m: Seq<u8>,
    y: Seq<u8>,
    m2: Seq<u8>,
    z: Seq<u8>,
    a: Seq<char>,
    b: Seq<char>,
)
    ensures
        ({
            let i = x.len() as int;
            let j = i + m.len();
            let k = j + y.len();
            let l = k + m2.len();
            edit::applied(
                x + m + y + m2 + z,
                search::replacement_edits(seq![(i, j), (k, l)], seq![a, b]),
            ) == x + encode_utf8(a) + y + encode_utf8(b) + z
        }),
{
    let i = x.len() as int;
    let j = i + m.len();
    let k = j + y.len();
    let l = k + m2.len();
    let t = x + m + y + m2 + z;
    let edits = search::replacement_edits(seq![(i, j), (k, l)], seq![a, b]);
    let second = edit::replaced(t, edits.last());
    assert(second =~= x + m + y + encode_utf8(b) + z);
    let one = edits.drop_last();
    assert(one.last() == (i, j, encode_utf8(a)));
    assert(edit::replaced(second, one.last()) =~= x + encode_utf8(a) + y + encode_utf8(b) + z);
    assert(one.drop_last().len() == 0);
    reveal_with_fuel(edit::applied, 4);
}

} // verus!

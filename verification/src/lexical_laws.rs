//! How code, strings and comments are told apart.

use crate::bytes;
use crate::comment;
use crate::comment_blocks;
use crate::lsp::linked_editing;
use crate::order;
use crate::pairs;
use crate::pairs::{EditorTokenContext, LanguageModel, Lexical, LexicalTokens, Scan};
use crate::scalars;
use crate::text;
use vstd::prelude::*;
use vstd::utf8::*;

verus! {

/// The text reads `token` from `o` on.
pub open spec fn stands(t: Seq<u8>, o: int, token: Seq<char>) -> bool {
    let own = encode_utf8(token);
    0 <= o && o + own.len() <= t.len() && t.subrange(o, o + own.len()) == own
}

/// The token begins a comment.
pub open spec fn begins_comment(language: LanguageModel, token: Seq<char>) -> bool {
    ||| language.line_comment matches Some(line) && line@ == token
    ||| language.block_comment matches Some(block) && block.open@ == token
}

/// The token begins a string: it is one of the delimiters, or both halves of an
/// auto-closing pair that ends in a quotation mark.
pub open spec fn begins_string(language: LanguageModel, token: Seq<char>) -> bool {
    ||| exists|i: int|
        0 <= i < language.string_delimiters.len() && (#[trigger] language.string_delimiters[i])@
            == token
    ||| exists|i: int|
        0 <= i < language.auto_closing_pairs.len() && (
        #[trigger] language.auto_closing_pairs[i]).open@ == token && quotes(
            token,
            language.auto_closing_pairs[i].close@,
        )
}

/// Opening and closing token are the same and end in a quotation mark.
pub open spec fn quotes(open: Seq<char>, close: Seq<char>) -> bool {
    let last = encode_utf8(open).last();
    encode_utf8(open).len() > 0 && open == close && (last == 34 || last == 39 || last == 96)
}

/// Neither a comment nor a string begins in `from..to`.
pub open spec fn is_code(t: Seq<u8>, from: int, to: int, language: LanguageModel) -> bool {
    forall|o: int, token: Seq<char>|
        #![trigger stands(t, o, token)]
        from <= o < to && (begins_comment(language, token) || begins_string(language, token))
            ==> !stands(t, o, token)
}

/// An odd number of backslashes stands just before `o`.
pub open spec fn follows_odd_backslashes(t: Seq<u8>, o: int) -> bool {
    exists|k: int| #[trigger] follows_backslashes(t, o, k) && k % 2 == 1
}

/// Just `k` backslashes stand before `o`.
pub open spec fn follows_backslashes(t: Seq<u8>, o: int, k: int) -> bool {
    &&& 0 <= k <= o <= t.len()
    &&& forall|j: int| o - k <= j < o ==> #[trigger] t[j] == 92
    &&& o - k == 0 || t[o - k - 1] != 92
}

proof fn lemma_backslashes(t: Seq<u8>, o: int)
    requires
        0 <= o <= t.len(),
    ensures
        follows_backslashes(t, o, pairs::backslashes(t, o)),
    decreases o,
{
    if 0 < o && t[o - 1] == 92 {
        lemma_backslashes(t, o - 1);
    }
}

pub proof fn lemma_escaped(t: Seq<u8>, o: int)
    requires
        0 <= o <= t.len(),
    ensures
        pairs::is_escaped(t, o) == follows_odd_backslashes(t, o),
{
    lemma_backslashes(t, o);
    let n = pairs::backslashes(t, o);
    if follows_odd_backslashes(t, o) {
        let k = choose|k: int| #[trigger] follows_backslashes(t, o, k) && k % 2 == 1;
        if k < n {
            assert(t[o - k - 1] == 92);
        }
        if n < k {
            assert(t[o - n - 1] == 92);
        }
    }
}

proof fn lemma_quote_delimiter(language: LanguageModel, n: int, i: int)
    requires
        0 <= n <= language.auto_closing_pairs.len(),
        0 <= i < pairs::quote_delimiters(language.auto_closing_pairs, n).len(),
    ensures
        exists|token: Seq<char>|
            #![trigger begins_string(language, token)]
            begins_string(language, token) && encode_utf8(token) == pairs::quote_delimiters(
                language.auto_closing_pairs,
                n,
            )[i],
    decreases n,
{
    let all = language.auto_closing_pairs;
    if n > 0 {
        let before = pairs::quote_delimiters(all, n - 1);
        if i < before.len() {
            lemma_quote_delimiter(language, n - 1, i);
            assert(pairs::quote_delimiters(all, n)[i] == before[i]);
        } else {
            let pair = all[n - 1];
            lemma_same_text(pair.open@, pair.close@);
            assert(quotes(pair.open@, pair.close@));
            assert(begins_string(language, pair.open@));
        }
    }
}

proof fn lemma_same_text(a: Seq<char>, b: Seq<char>)
    ensures
        encode_utf8(a) == encode_utf8(b) <==> a == b,
{
    encode_utf8_decode_utf8(a);
    encode_utf8_decode_utf8(b);
}

proof fn lemma_delimiter(language: LanguageModel, i: int)
    requires
        0 <= i < pairs::lexical_tokens(language).delimiters.len(),
    ensures
        exists|token: Seq<char>|
            #![trigger begins_string(language, token)]
            begins_string(language, token) && encode_utf8(token) == pairs::lexical_tokens(
                language,
            ).delimiters[i],
{
    let own = pairs::encoded(language.string_delimiters);
    let n = language.auto_closing_pairs.len() as int;
    if i < own.len() {
        let token = language.string_delimiters[i]@;
        assert(begins_string(language, token));
        assert(encode_utf8(token) == pairs::lexical_tokens(language).delimiters[i]);
    } else {
        lemma_quote_delimiter(language, n, i - own.len());
    }
}

proof fn lemma_quote_is_delimiter(language: LanguageModel, n: int, j: int)
    requires
        0 <= j < n <= language.auto_closing_pairs.len(),
        quotes(language.auto_closing_pairs[j].open@, language.auto_closing_pairs[j].close@),
    ensures
        pairs::quote_delimiters(language.auto_closing_pairs, n).contains(
            encode_utf8(language.auto_closing_pairs[j].open@),
        ),
    decreases n,
{
    let all = language.auto_closing_pairs;
    let token = encode_utf8(all[j].open@);
    let now = pairs::quote_delimiters(all, n);
    if j < n - 1 {
        lemma_quote_is_delimiter(language, n - 1, j);
        let before = pairs::quote_delimiters(all, n - 1);
        let k = choose|k: int| 0 <= k < before.len() && before[k] == token;
        assert(now[k] == token);
    } else {
        assert(now.last() == token);
    }
}

proof fn lemma_is_delimiter(language: LanguageModel, token: Seq<char>)
    requires
        begins_string(language, token),
    ensures
        pairs::lexical_tokens(language).delimiters.contains(encode_utf8(token)),
{
    let all = pairs::lexical_tokens(language).delimiters;
    let own = pairs::encoded(language.string_delimiters);
    let more = pairs::quote_delimiters(
        language.auto_closing_pairs,
        language.auto_closing_pairs.len() as int,
    );
    if exists|i: int|
        0 <= i < language.string_delimiters.len() && (#[trigger] language.string_delimiters[i])@
            == token {
        let i = choose|i: int|
            0 <= i < language.string_delimiters.len() && (#[trigger] language.string_delimiters[i])@
                == token;
        assert(all[i] == encode_utf8(token));
    } else {
        let i = choose|i: int|
            0 <= i < language.auto_closing_pairs.len() && (
            #[trigger] language.auto_closing_pairs[i]).open@ == token && quotes(
                token,
                language.auto_closing_pairs[i].close@,
            );
        lemma_quote_is_delimiter(language, language.auto_closing_pairs.len() as int, i);
        let k = choose|k: int| 0 <= k < more.len() && more[k] == encode_utf8(token);
        assert(all[own.len() + k] == encode_utf8(token));
    }
}

proof fn lemma_longest(t: Seq<u8>, o: int, tokens: Seq<Seq<u8>>, n: int)
    requires
        0 <= n <= tokens.len(),
    ensures
        match pairs::longest_token(t, o, tokens, n) {
            Some(token) => bytes::matches_at(t, o, token) && tokens.contains(token) && forall|i: int|
                0 <= i < n && bytes::matches_at(t, o, #[trigger] tokens[i]) ==> tokens[i].len()
                    <= token.len(),
            None => forall|i: int| 0 <= i < n ==> !bytes::matches_at(t, o, #[trigger] tokens[i]),
        },
    decreases n,
{
    if n > 0 {
        lemma_longest(t, o, tokens, n - 1);
        assert(tokens.contains(tokens[n - 1]));
    }
}

/// Where no comment and no string begins, the text is read on as code.
proof fn lemma_no_token(t: Seq<u8>, o: int, language: LanguageModel)
    requires
        is_code(t, o, o + 1, language),
    ensures
        pairs::code_token(t, o, pairs::lexical_tokens(language)) is None,
{
    let tokens = pairs::lexical_tokens(language);
    let n = tokens.delimiters.len() as int;
    if language.line_comment is Some {
        assert(!stands(t, o, language.line_comment->Some_0@));
    }
    if language.block_comment is Some {
        assert(!stands(t, o, (language.block_comment->Some_0).open@));
    }
    lemma_longest(t, o, tokens.delimiters, n);
    if pairs::longest_token(t, o, tokens.delimiters, n) is Some {
        let own = pairs::longest_token(t, o, tokens.delimiters, n)->Some_0;
        let i = choose|i: int| 0 <= i < n && tokens.delimiters[i] == own;
        lemma_delimiter(language, i);
        let token = choose|token: Seq<char>|
            #![trigger begins_string(language, token)]
            begins_string(language, token) && encode_utf8(token) == own;
        assert(!stands(t, o, token));
    }
}

/// Every step in `from..to` is over one character and stays in `state`.
spec fn stays(t: Seq<u8>, from: int, to: int, state: Lexical, tokens: LexicalTokens) -> bool {
    forall|o: int|
        from <= o < to && #[trigger] text::is_boundary(t, o) ==> pairs::lexical_step(
            t,
            o,
            state,
            tokens,
        ) == (text::ceil_boundary(t, o + 1), state)
}

proof fn lemma_step_on(t: Seq<u8>, o: int, to: int)
    requires
        valid_utf8(t),
        0 <= o < to <= t.len(),
        text::is_boundary(t, o),
        text::is_boundary(t, to),
    ensures
        o < text::ceil_boundary(t, o + 1) <= to,
        text::is_boundary(t, text::ceil_boundary(t, o + 1)),
{
    scalars::lemma_next_boundary(t, o);
    text::lemma_boundary(t, to);
    text::lemma_boundary(t, text::ceil_boundary(t, o + 1));
}

proof fn lemma_stays(
    t: Seq<u8>,
    from: int,
    to: int,
    state: Lexical,
    target: int,
    tokens: LexicalTokens,
)
    requires
        valid_utf8(t),
        0 <= from <= to <= t.len(),
        text::is_boundary(t, from),
        text::is_boundary(t, to),
        stays(t, from, to, state, tokens),
    ensures
        target <= to ==> pairs::lexical_at(t, from, state, target, tokens) == state,
        target > to ==> pairs::lexical_at(t, from, state, target, tokens) == pairs::lexical_at(
            t,
            to,
            state,
            target,
            tokens,
        ),
    decreases to - from,
{
    if from < to {
        lemma_step_on(t, from, to);
        let next = text::ceil_boundary(t, from + 1);
        assert(pairs::lexical_step(t, from, state, tokens) == (next, state));
        lemma_stays(t, next, to, state, target, tokens);
    }
}

proof fn lemma_cut(p: Seq<char>, q: Seq<char>)
    ensures
        encode_utf8(p + q) == encode_utf8(p) + encode_utf8(q),
        text::is_boundary(encode_utf8(p + q), encode_utf8(p).len() as int),
        valid_utf8(encode_utf8(p + q)),
{
    text::lemma_encode_concat(p, q);
    encode_utf8_valid_utf8(p + q);
    linked_editing::lemma_char_boundary(p + q, p.len() as int);
    assert((p + q).take(p.len() as int) =~= p);
}

proof fn lemma_ceil_behind(p: Seq<u8>, q: Seq<u8>, o: int)
    requires
        0 < o,
    ensures
        text::ceil_boundary(p + q, p.len() + o) == p.len() + text::ceil_boundary(q, o),
    decreases q.len() - o,
{
    if o < q.len() {
        assert((p + q)[p.len() + o] == q[o]);
        if is_continuation_byte(q[o]) {
            lemma_ceil_behind(p, q, o + 1);
        }
    }
}

proof fn lemma_matches_behind(p: Seq<u8>, q: Seq<u8>, o: int, token: Seq<u8>)
    requires
        0 <= o,
    ensures
        bytes::matches_at(p + q, p.len() + o, token) == bytes::matches_at(q, o, token),
{
    if o + token.len() <= q.len() {
        assert((p + q).subrange(p.len() + o, p.len() + o + token.len()) =~= q.subrange(
            o,
            o + token.len(),
        ));
    }
}

proof fn lemma_longest_behind(p: Seq<u8>, q: Seq<u8>, o: int, tokens: Seq<Seq<u8>>, n: int)
    requires
        0 <= o,
    ensures
        pairs::longest_token(p + q, p.len() + o, tokens, n) == pairs::longest_token(q, o, tokens, n),
    decreases n,
{
    if n > 0 {
        lemma_longest_behind(p, q, o, tokens, n - 1);
        lemma_matches_behind(p, q, o, tokens[n - 1]);
    }
}

proof fn lemma_backslashes_behind(p: Seq<u8>, q: Seq<u8>, o: int)
    requires
        0 <= o <= q.len(),
        p.len() == 0 || p.last() != 92,
    ensures
        pairs::backslashes(p + q, p.len() + o) == pairs::backslashes(q, o),
    decreases o,
{
    if o > 0 {
        assert((p + q)[p.len() + o - 1] == q[o - 1]);
        if q[o - 1] == 92 {
            lemma_backslashes_behind(p, q, o - 1);
        }
    } else if p.len() > 0 {
        assert((p + q)[p.len() - 1] == p.last());
    }
}

proof fn lemma_step_behind(p: Seq<u8>, q: Seq<u8>, o: int, state: Lexical, tokens: LexicalTokens)
    requires
        0 <= o < q.len(),
        p.len() == 0 || p.last() != 92,
    ensures
        ({
            let (next, after) = pairs::skip_step(q, o, state, tokens);
            pairs::skip_step(p + q, p.len() + o, state, tokens) == (p.len() + next, after)
        }),
        match pairs::code_token(q, o, tokens) {
            Some((next, after)) => pairs::code_token(p + q, p.len() + o, tokens) == Some(
                (p.len() + next, after),
            ),
            None => pairs::code_token(p + q, p.len() + o, tokens) is None,
        },
{
    lemma_ceil_behind(p, q, o + 1);
    lemma_backslashes_behind(p, q, o);
    lemma_longest_behind(p, q, o, tokens.delimiters, tokens.delimiters.len() as int);
    assert((p + q)[p.len() + o] == q[o]);
    if tokens.line is Some {
        lemma_matches_behind(p, q, o, tokens.line->Some_0);
    }
    if tokens.block is Some {
        lemma_matches_behind(p, q, o, (tokens.block->Some_0).0);
        lemma_matches_behind(p, q, o, (tokens.block->Some_0).1);
    }
    if state is InString {
        lemma_matches_behind(p, q, o, state->InString_0);
    }
}

proof fn lemma_reading_behind(
    p: Seq<u8>,
    q: Seq<u8>,
    o: int,
    state: Lexical,
    target: int,
    tokens: LexicalTokens,
)
    requires
        0 <= o,
        p.len() == 0 || p.last() != 92,
    ensures
        pairs::lexical_at(p + q, p.len() + o, state, p.len() + target, tokens) == pairs::lexical_at(
            q,
            o,
            state,
            target,
            tokens,
        ),
    decreases q.len() - o,
{
    if o < target && o < q.len() {
        lemma_step_behind(p, q, o, state, tokens);
        let (next, after) = pairs::lexical_step(q, o, state, tokens);
        if !(next <= o || next > q.len()) {
            lemma_reading_behind(p, q, next, after, target, tokens);
        }
    }
}

/// `a` is where something that is not code begins, `mid` where its first token ends,
/// `e` where its last token begins and `n` where that ends.
spec fn is_passage(
    t: Seq<u8>,
    a: int,
    mid: int,
    e: int,
    n: int,
    state: Lexical,
    language: LanguageModel,
) -> bool {
    let tokens = pairs::lexical_tokens(language);
    &&& valid_utf8(t)
    &&& 0 <= a < mid <= e < n <= t.len()
    &&& text::is_boundary(t, a)
    &&& text::is_boundary(t, mid)
    &&& text::is_boundary(t, e)
    &&& is_code(t, 0, a, language)
    &&& !(state is Code)
    &&& pairs::code_token(t, a, tokens) == Some((mid, state))
    &&& stays(t, mid, e, state, tokens)
    &&& pairs::skip_step(t, e, state, tokens) == (n, Lexical::Code)
    &&& t[n - 1] != 92
}

proof fn lemma_code_stays(t: Seq<u8>, from: int, to: int, language: LanguageModel)
    requires
        is_code(t, from, to, language),
    ensures
        stays(t, from, to, Lexical::Code, pairs::lexical_tokens(language)),
{
    let tokens = pairs::lexical_tokens(language);
    assert forall|o: int| from <= o < to && #[trigger] text::is_boundary(t, o) implies pairs::lexical_step(
        t,
        o,
        Lexical::Code,
        tokens,
    ) == (text::ceil_boundary(t, o + 1), Lexical::Code) by {
        assert(is_code(t, o, o + 1, language));
        lemma_no_token(t, o, language);
    }
}

#[verifier::rlimit(30)]
proof fn lemma_passage(
    t: Seq<u8>,
    a: int,
    mid: int,
    e: int,
    n: int,
    state: Lexical,
    language: LanguageModel,
    target: int,
)
    requires
        is_passage(t, a, mid, e, n, state, language),
    ensures
        ({
            let tokens = pairs::lexical_tokens(language);
            let found = pairs::lexical_at(t, 0, Lexical::Code, target, tokens);
            &&& target <= a ==> found == Lexical::Code
            &&& a < target <= e ==> found == state
            &&& e < target <= n ==> found == Lexical::Code
            &&& target >= n ==> found == pairs::lexical_at(
                t.skip(n),
                0,
                Lexical::Code,
                target - n,
                tokens,
            )
        }),
{
    let tokens = pairs::lexical_tokens(language);
    lemma_code_stays(t, 0, a, language);
    lemma_stays(t, 0, a, Lexical::Code, target, tokens);
    if target > a {
        assert(pairs::lexical_at(t, a, Lexical::Code, target, tokens) == pairs::lexical_at(
            t,
            mid,
            state,
            target,
            tokens,
        ));
        lemma_stays(t, mid, e, state, target, tokens);
        if target > e {
            assert(pairs::lexical_at(t, e, state, target, tokens) == pairs::lexical_at(
                t,
                n,
                Lexical::Code,
                target,
                tokens,
            ));
            let p = t.take(n);
            assert(t =~= p + t.skip(n));
            assert(p.last() == t[n - 1]);
            lemma_reading_behind(p, t.skip(n), 0, Lexical::Code, target - n, tokens);
        }
    }
}

/// No half of a bracket pair stands in `from..to`.
pub open spec fn is_without_brackets(
    t: Seq<u8>,
    from: int,
    to: int,
    language: LanguageModel,
) -> bool {
    forall|o: int, i: int|
        #![trigger stands(t, o, language.brackets[i].open@)]
        #![trigger stands(t, o, language.brackets[i].close@)]
        from <= o < to && 0 <= i < language.brackets.len() ==> !stands(
            t,
            o,
            language.brackets[i].open@,
        ) && !stands(t, o, language.brackets[i].close@)
}

proof fn lemma_no_bracket(t: Seq<u8>, o: int, language: LanguageModel, n: int)
    requires
        is_without_brackets(t, o, o + 1, language),
        0 <= n <= language.brackets.len(),
    ensures
        pairs::bracket_token(t, o, language.brackets, n) is None,
    decreases n,
{
    if n > 0 {
        lemma_no_bracket(t, o, language, n - 1);
        assert(!stands(t, o, language.brackets[n - 1].open@));
        assert(!stands(t, o, language.brackets[n - 1].close@));
    }
}

spec fn at(scan: Scan, offset: int, state: Lexical) -> Scan {
    Scan { offset, state, ..scan }
}

proof fn lemma_scan_skips(
    t: Seq<u8>,
    scan: Scan,
    to: int,
    language: LanguageModel,
)
    requires
        valid_utf8(t),
        0 <= scan.offset <= to <= t.len(),
        text::is_boundary(t, scan.offset),
        text::is_boundary(t, to),
        !(scan.state is Code),
        stays(t, scan.offset, to, scan.state, pairs::lexical_tokens(language)),
    ensures
        pairs::scan_rest(t, scan, language) == pairs::scan_rest(
            t,
            at(scan, to, scan.state),
            language,
        ),
    decreases to - scan.offset,
{
    let tokens = pairs::lexical_tokens(language);
    if scan.offset < to {
        lemma_step_on(t, scan.offset, to);
        let next = text::ceil_boundary(t, scan.offset + 1);
        assert(pairs::lexical_step(t, scan.offset, scan.state, tokens) == (next, scan.state));
        assert(pairs::scan_step(t, scan, language) == at(scan, next, scan.state));
        lemma_scan_skips(t, at(scan, next, scan.state), to, language);
        assert(at(at(scan, next, scan.state), to, scan.state) == at(scan, to, scan.state));
    } else {
        assert(at(scan, to, scan.state) == scan);
    }
}

proof fn lemma_scan_code(t: Seq<u8>, scan: Scan, to: int, language: LanguageModel)
    requires
        valid_utf8(t),
        0 <= scan.offset <= to <= t.len(),
        text::is_boundary(t, scan.offset),
        text::is_boundary(t, to),
        scan.state is Code,
        is_code(t, scan.offset, to, language),
        is_without_brackets(t, scan.offset, to, language),
    ensures
        pairs::scan_rest(t, scan, language) == pairs::scan_rest(
            t,
            at(scan, to, scan.state),
            language,
        ),
    decreases to - scan.offset,
{
    if scan.offset < to {
        lemma_step_on(t, scan.offset, to);
        let next = text::ceil_boundary(t, scan.offset + 1);
        assert(is_code(t, scan.offset, scan.offset + 1, language));
        assert(is_without_brackets(t, scan.offset, scan.offset + 1, language));
        lemma_no_token(t, scan.offset, language);
        lemma_no_bracket(t, scan.offset, language, language.brackets.len() as int);
        assert(pairs::scan_step(t, scan, language) == at(scan, next, scan.state));
        lemma_scan_code(t, at(scan, next, scan.state), to, language);
        assert(at(at(scan, next, scan.state), to, scan.state) == at(scan, to, scan.state));
    } else {
        assert(at(scan, to, scan.state) == scan);
    }
}

/// A pair of brackets `d` bytes further on.
pub open spec fn further(pair: ((int, int), (int, int)), d: int) -> ((int, int), (int, int)) {
    ((pair.0.0 + d, pair.0.1 + d), (pair.1.0 + d, pair.1.1 + d))
}

pub open spec fn all_further(found: Seq<((int, int), (int, int))>, d: int) -> Seq<
    ((int, int), (int, int)),
> {
    Seq::new(found.len(), |i: int| further(found[i], d))
}

spec fn scan_further(scan: Scan, d: int) -> Scan {
    Scan {
        offset: scan.offset + d,
        state: scan.state,
        open: Seq::new(
            scan.open.len(),
            |i: int| (scan.open[i].0, scan.open[i].1 + d, scan.open[i].2 + d),
        ),
        found: all_further(scan.found, d),
    }
}

proof fn lemma_bracket_behind(p: Seq<u8>, q: Seq<u8>, o: int, language: LanguageModel, n: int)
    requires
        0 <= o,
    ensures
        pairs::bracket_token(p + q, p.len() + o, language.brackets, n) == pairs::bracket_token(
            q,
            o,
            language.brackets,
            n,
        ),
    decreases n,
{
    if n > 0 {
        lemma_bracket_behind(p, q, o, language, n - 1);
        lemma_matches_behind(p, q, o, encode_utf8(language.brackets[n - 1].open@));
        lemma_matches_behind(p, q, o, encode_utf8(language.brackets[n - 1].close@));
    }
}

proof fn lemma_scan_behind(p: Seq<u8>, q: Seq<u8>, scan: Scan, language: LanguageModel)
    requires
        0 <= scan.offset,
        p.len() == 0 || p.last() != 92,
    ensures
        pairs::scan_rest(p + q, scan_further(scan, p.len() as int), language) == all_further(
            pairs::scan_rest(q, scan, language),
            p.len() as int,
        ),
    decreases q.len() - scan.offset,
{
    let d = p.len() as int;
    let o = scan.offset;
    let moved = scan_further(scan, d);
    if o < q.len() {
        lemma_step_behind(p, q, o, scan.state, pairs::lexical_tokens(language));
        lemma_bracket_behind(p, q, o, language, language.brackets.len() as int);
        lemma_ceil_behind(p, q, o + 1);
        let next = pairs::scan_step(q, scan, language);
        let moved_next = pairs::scan_step(p + q, moved, language);
        let meant = scan_further(next, d);
        assert(moved_next.open =~= meant.open);
        assert(moved_next.found =~= meant.found);
        assert(moved_next == meant);
        if !(next.offset <= o || next.offset > q.len()) {
            lemma_scan_behind(p, q, next, language);
        }
    }
}

proof fn lemma_position_further(
    keys: Seq<(int, int)>,
    moved: Seq<(int, int)>,
    d: int,
    order: Seq<int>,
    k: int,
    m: int,
)
    requires
        0 <= m <= order.len(),
        0 <= k < keys.len(),
        moved.len() == keys.len(),
        forall|i: int|
            #![trigger moved[i]]
            0 <= i < keys.len() ==> moved[i] == (keys[i].0 + d, keys[i].1),
        forall|i: int| 0 <= i < order.len() ==> 0 <= #[trigger] order[i] < keys.len(),
    ensures
        order::insert_position(moved, order, k, m) == order::insert_position(keys, order, k, m),
    decreases m,
{
    if m > 0 {
        assert(0 <= order[m - 1] < keys.len());
        lemma_position_further(keys, moved, d, order, k, m - 1);
        assert(moved[order[m - 1]] == (keys[order[m - 1]].0 + d, keys[order[m - 1]].1));
        assert(moved[k] == (keys[k].0 + d, keys[k].1));
    }
}

proof fn lemma_order_further(keys: Seq<(int, int)>, moved: Seq<(int, int)>, d: int, n: int)
    requires
        0 <= n <= keys.len(),
        moved.len() == keys.len(),
        forall|i: int|
            #![trigger moved[i]]
            0 <= i < keys.len() ==> moved[i] == (keys[i].0 + d, keys[i].1),
    ensures
        order::sorted_order(moved, n) == order::sorted_order(keys, n),
    decreases n,
{
    if n > 0 {
        lemma_order_further(keys, moved, d, n - 1);
        order::lemma_sorted_order(keys, n - 1);
        let before = order::sorted_order(keys, n - 1);
        lemma_position_further(keys, moved, d, before, n - 1, before.len() as int);
    }
}

spec fn start() -> Scan {
    Scan { offset: 0, state: Lexical::Code, open: Seq::empty(), found: Seq::empty() }
}

spec fn by_opening(found: Seq<((int, int), (int, int))>) -> Seq<((int, int), (int, int))> {
    let keys = Seq::new(found.len(), |i: int| (found[i].0.0, 0int));
    let order = order::sorted_order(keys, found.len() as int);
    Seq::new(found.len(), |i: int| found[order[i]])
}

proof fn lemma_by_opening_further(found: Seq<((int, int), (int, int))>, d: int)
    ensures
        by_opening(all_further(found, d)) == all_further(by_opening(found), d),
{
    let keys = Seq::new(found.len(), |i: int| (found[i].0.0, 0int));
    let moved_found = all_further(found, d);
    let moved = Seq::new(moved_found.len(), |i: int| (moved_found[i].0.0, 0int));
    lemma_order_further(keys, moved, d, found.len() as int);
    order::lemma_sorted_order(keys, found.len() as int);
    let order = order::sorted_order(keys, found.len() as int);
    assert forall|i: int| 0 <= i < found.len() implies by_opening(all_further(found, d))[i]
        == all_further(by_opening(found), d)[i] by {
        assert(0 <= order[i] < found.len());
    }
    assert(by_opening(all_further(found, d)) =~= all_further(by_opening(found), d));
}

/// The brackets of a text that starts with a passage are those behind it.
#[verifier::rlimit(30)]
proof fn lemma_passage_pairs(
    t: Seq<u8>,
    a: int,
    mid: int,
    e: int,
    n: int,
    state: Lexical,
    language: LanguageModel,
)
    requires
        is_passage(t, a, mid, e, n, state, language),
        is_without_brackets(t, 0, a, language),
    ensures
        pairs::bracket_pairs(t, language) == all_further(
            pairs::bracket_pairs(t.skip(n), language),
            n,
        ),
{
    let tokens = pairs::lexical_tokens(language);
    let p = t.take(n);
    let q = t.skip(n);
    assert(t =~= p + q);
    assert(p.last() == t[n - 1]);
    lemma_scan_code(t, start(), a, language);
    let first = at(start(), a, Lexical::Code);
    let second = at(start(), mid, state);
    let third = at(start(), e, state);
    let fourth = at(start(), n, Lexical::Code);
    assert(pairs::scan_step(t, first, language) == second);
    assert(pairs::scan_rest(t, first, language) == pairs::scan_rest(t, second, language));
    lemma_scan_skips(t, second, e, language);
    assert(at(second, e, state) == third);
    assert(pairs::scan_step(t, third, language) == fourth);
    assert(pairs::scan_rest(t, third, language) == pairs::scan_rest(t, fourth, language));
    lemma_scan_behind(p, q, start(), language);
    let meant = scan_further(start(), n);
    assert(meant.open =~= fourth.open);
    assert(meant.found =~= fourth.found);
    assert(meant == fourth);
    let rest = pairs::scan_rest(q, start(), language);
    assert(pairs::scan_rest(t, start(), language) == all_further(rest, n));
    lemma_by_opening_further(rest, n);
    assert(pairs::bracket_pairs(q, language) == by_opening(rest));
    assert(pairs::bracket_pairs(t, language) == by_opening(all_further(rest, n)));
}

/// What is read of a text that starts with code and then with one comment or string in
/// `a..n`: `context` inside it, and behind it what would be read there without it.
pub open spec fn reads_as(
    t: Seq<u8>,
    a: int,
    e: int,
    n: int,
    context: EditorTokenContext,
    language: LanguageModel,
    target: int,
) -> bool {
    let found = pairs::token_context(t, target, language);
    &&& target <= a ==> found == EditorTokenContext::Code
    &&& a < target <= e ==> found == context
    &&& e < target <= n ==> found == EditorTokenContext::Code
    &&& target >= n ==> found == pairs::token_context(t.skip(n), target - n, language)
    &&& is_without_brackets(t, 0, a, language) ==> pairs::bracket_pairs(t, language) == all_further(
        pairs::bracket_pairs(t.skip(n), language),
        n,
    )
}

proof fn lemma_reads_as(
    t: Seq<u8>,
    a: int,
    mid: int,
    e: int,
    n: int,
    state: Lexical,
    language: LanguageModel,
    target: int,
)
    requires
        is_passage(t, a, mid, e, n, state, language),
    ensures
        reads_as(
            t,
            a,
            e,
            n,
            if state is InString {
                EditorTokenContext::String
            } else {
                EditorTokenContext::Comment
            },
            language,
            target,
        ),
{
    lemma_passage(t, a, mid, e, n, state, language, target);
    if is_without_brackets(t, 0, a, language) {
        lemma_passage_pairs(t, a, mid, e, n, state, language);
    }
}

/// A line comment goes to the next line feed: from its token to there all is comment,
/// and right behind the line feed the text is read as code again, as if nothing stood
/// before it. No bracket in the comment counts.
#[verifier::rlimit(30)]
pub proof fn law_line_comment(
    language: LanguageModel,
    x: Seq<char>,
    y: Seq<char>,
    z: Seq<char>,
    target: int,
)
    requires
        pairs::tokens_wf(language),
        language.line_comment is Some,
        forall|k: int| 0 <= k < y.len() ==> #[trigger] y[k] != '\n',
        ({
            let t = encode_utf8(x + language.line_comment->Some_0@ + y + seq!['\n'] + z);
            is_code(t, 0, encode_utf8(x).len() as int, language)
        }),
    ensures
        ({
            let line = language.line_comment->Some_0@;
            let t = encode_utf8(x + line + y + seq!['\n'] + z);
            let a = encode_utf8(x).len() as int;
            let e = encode_utf8(x + line + y).len() as int;
            &&& t.skip(e + 1) == encode_utf8(z)
            &&& reads_as(t, a, e, e + 1, EditorTokenContext::Comment, language, target)
        }),
{
    let line = language.line_comment->Some_0@;
    let tokens = pairs::lexical_tokens(language);
    let s = x + line + y + seq!['\n'] + z;
    let t = encode_utf8(s);
    let a = encode_utf8(x).len() as int;
    let mid = encode_utf8(x + line).len() as int;
    let e = encode_utf8(x + line + y).len() as int;
    let n = e + 1;
    assert(s =~= x + (line + y + seq!['\n'] + z));
    assert(s =~= (x + line) + (y + seq!['\n'] + z));
    assert(s =~= (x + line + y) + (seq!['\n'] + z));
    lemma_cut(x, line + y + seq!['\n'] + z);
    lemma_cut(x + line, y + seq!['\n'] + z);
    lemma_cut(x + line + y, seq!['\n'] + z);
    lemma_cut(x, line);
    lemma_cut(x + line, y);
    lemma_cut(seq!['\n'], z);
    assert(is_ascii_chars(seq!['\n']));
    comment::lemma_ascii_bytes(seq!['\n']);
    assert(t.skip(n) =~= encode_utf8(z));
    assert(t.subrange(a, mid) =~= encode_utf8(line));
    assert(t[e] == 10);
    lemma_no_line_feed(y);
    assert forall|o: int| mid <= o < e && #[trigger] text::is_boundary(t, o) implies pairs::lexical_step(
        t,
        o,
        Lexical::LineComment,
        tokens,
    ) == (text::ceil_boundary(t, o + 1), Lexical::LineComment) by {
        assert(t[o] == encode_utf8(y)[o - mid]);
    }
    lemma_step_on(t, e, t.len() as int);
    text::lemma_boundary_after_ascii(t, e);
    lemma_step_on(t, e, n);
    lemma_reads_as(t, a, mid, e, n, Lexical::LineComment, language, target);
}

proof fn lemma_no_line_feed(y: Seq<char>)
    requires
        forall|k: int| 0 <= k < y.len() ==> #[trigger] y[k] != '\n',
    ensures
        forall|k: int| 0 <= k < encode_utf8(y).len() ==> #[trigger] encode_utf8(y)[k] != 10,
{
    assert forall|k: int| 0 <= k < encode_utf8(y).len() implies #[trigger] encode_utf8(y)[k]
        != 10 by {
        if encode_utf8(y)[k] == 10 {
            comment_blocks::lemma_ascii(y, k);
            let j = choose|j: int|
                0 <= j < y.len() && #[trigger] y[j] as u32 == encode_utf8(y)[k] as u32;
            char_u32_cast(y[j], 10u32);
            char_u32_cast('\n', 10u32);
            assert(y[j] == '\n');
        }
    }
}

/// A block comment goes to the first closing token: from its opening token to there all
/// is comment, and right behind the closing token the text is read as code again, as if
/// nothing stood before it. No bracket in the comment counts.
#[verifier::rlimit(30)]
pub proof fn law_block_comment(
    language: LanguageModel,
    x: Seq<char>,
    y: Seq<char>,
    z: Seq<char>,
    target: int,
)
    requires
        pairs::tokens_wf(language),
        language.block_comment is Some,
        ({
            let open = (language.block_comment->Some_0).open@;
            let close = (language.block_comment->Some_0).close@;
            let t = encode_utf8(x + open + y + close + z);
            let a = encode_utf8(x).len() as int;
            &&& is_code(t, 0, a, language)
            &&& language.line_comment matches Some(line) ==> !stands(t, a, line@)
            &&& forall|o: int|
                a + encode_utf8(open).len() <= o < encode_utf8(x + open + y).len()
                    ==> !#[trigger] stands(t, o, close)
            &&& encode_utf8(close).last() != 92
        }),
    ensures
        ({
            let open = (language.block_comment->Some_0).open@;
            let close = (language.block_comment->Some_0).close@;
            let t = encode_utf8(x + open + y + close + z);
            let a = encode_utf8(x).len() as int;
            let e = encode_utf8(x + open + y).len() as int;
            let n = e + encode_utf8(close).len();
            &&& t.skip(n) == encode_utf8(z)
            &&& reads_as(t, a, e, n, EditorTokenContext::Comment, language, target)
        }),
{
    let open = (language.block_comment->Some_0).open@;
    let close = (language.block_comment->Some_0).close@;
    let tokens = pairs::lexical_tokens(language);
    let t = encode_utf8(x + open + y + close + z);
    let a = encode_utf8(x).len() as int;
    let mid = a + encode_utf8(open).len();
    let e = encode_utf8(x + open + y).len() as int;
    let n = e + encode_utf8(close).len();
    lemma_five(x, open, y, close, z);
    if language.line_comment is Some {
        assert(!stands(t, a, language.line_comment->Some_0@));
    }
    assert forall|o: int| mid <= o < e && #[trigger] text::is_boundary(t, o) implies pairs::lexical_step(
        t,
        o,
        Lexical::BlockComment,
        tokens,
    ) == (text::ceil_boundary(t, o + 1), Lexical::BlockComment) by {
        assert(!stands(t, o, close));
    }
    assert(t[n - 1] == encode_utf8(close).last());
    lemma_reads_as(t, a, mid, e, n, Lexical::BlockComment, language, target);
}

/// The places of five texts one behind the other.
#[verifier::rlimit(30)]
proof fn lemma_five(x: Seq<char>, open: Seq<char>, y: Seq<char>, close: Seq<char>, z: Seq<char>)
    ensures
        ({
            let t = encode_utf8(x + open + y + close + z);
            let a = encode_utf8(x).len() as int;
            let mid = a + encode_utf8(open).len();
            let e = encode_utf8(x + open + y).len() as int;
            let n = e + encode_utf8(close).len();
            &&& valid_utf8(t)
            &&& mid <= e
            &&& n <= t.len()
            &&& text::is_boundary(t, a)
            &&& text::is_boundary(t, mid)
            &&& text::is_boundary(t, e)
            &&& text::is_boundary(t, n)
            &&& t.subrange(a, mid) == encode_utf8(open)
            &&& t.subrange(e, n) == encode_utf8(close)
            &&& t.skip(n) == encode_utf8(z)
            &&& forall|k: int| e <= k < n ==> #[trigger] t[k] == encode_utf8(close)[k - e]
        }),
{
    let s = x + open + y + close + z;
    let t = encode_utf8(s);
    assert(s =~= x + (open + y + close + z));
    assert(s =~= (x + open) + (y + close + z));
    assert(s =~= (x + open + y) + (close + z));
    lemma_cut(x, open + y + close + z);
    lemma_cut(x + open, y + close + z);
    lemma_cut(x + open + y, close + z);
    lemma_cut(x + open + y + close, z);
    lemma_cut(x, open);
    lemma_cut(x + open, y);
    lemma_cut(x + open + y, close);
    lemma_cut(close, z);
    let a = encode_utf8(x).len() as int;
    let mid = a + encode_utf8(open).len();
    let e = encode_utf8(x + open + y).len() as int;
    let n = e + encode_utf8(close).len();
    assert(t.subrange(a, mid) =~= encode_utf8(open));
    assert(t.subrange(e, n) =~= encode_utf8(close));
    assert(t.skip(n) =~= encode_utf8(z));
    assert forall|k: int| e <= k < n implies #[trigger] t[k] == encode_utf8(close)[k - e] by {
        assert(t.subrange(e, n)[k - e] == t[k]);
    }
}

proof fn lemma_begins_string(t: Seq<u8>, a: int, delimiter: Seq<char>, language: LanguageModel)
    requires
        pairs::tokens_wf(language),
        begins_string(language, delimiter),
        stands(t, a, delimiter),
        forall|token: Seq<char>|
            begins_comment(language, token) ==> !#[trigger] stands(t, a, token),
        forall|token: Seq<char>|
            begins_string(language, token) && #[trigger] stands(t, a, token) ==> encode_utf8(
                token,
            ).len() <= encode_utf8(delimiter).len(),
    ensures
        encode_utf8(delimiter).len() > 0,
        pairs::code_token(t, a, pairs::lexical_tokens(language)) == Some(
            (a + encode_utf8(delimiter).len(), Lexical::InString(encode_utf8(delimiter))),
        ),
{
    let own = encode_utf8(delimiter);
    let tokens = pairs::lexical_tokens(language);
    if language.line_comment is Some {
        assert(!stands(t, a, language.line_comment->Some_0@));
    }
    if language.block_comment is Some {
        assert(!stands(t, a, (language.block_comment->Some_0).open@));
    }
    let count = tokens.delimiters.len() as int;
    lemma_is_delimiter(language, delimiter);
    let k = choose|k: int| 0 <= k < count && tokens.delimiters[k] == own;
    assert(own.len() > 0);
    lemma_longest(t, a, tokens.delimiters, count);
    assert(bytes::matches_at(t, a, tokens.delimiters[k]));
    let longest = pairs::longest_token(t, a, tokens.delimiters, count)->Some_0;
    let i = choose|i: int| 0 <= i < count && tokens.delimiters[i] == longest;
    lemma_delimiter(language, i);
    let token = choose|token: Seq<char>|
        #![trigger begins_string(language, token)]
        begins_string(language, token) && encode_utf8(token) == longest;
    assert(stands(t, a, token));
    assert(longest.len() == own.len());
    assert(longest == own);
}

/// A string goes to the next delimiter like its first that does not follow an odd
/// number of backslashes: to there all is string, and right behind it the text is read
/// as code again, as if nothing stood before it. No bracket in the string counts.
#[verifier::rlimit(30)]
pub proof fn law_string(
    language: LanguageModel,
    x: Seq<char>,
    delimiter: Seq<char>,
    y: Seq<char>,
    z: Seq<char>,
    target: int,
)
    requires
        pairs::tokens_wf(language),
        begins_string(language, delimiter),
        ({
            let t = encode_utf8(x + delimiter + y + delimiter + z);
            let a = encode_utf8(x).len() as int;
            let e = encode_utf8(x + delimiter + y).len() as int;
            &&& is_code(t, 0, a, language)
            &&& forall|token: Seq<char>|
                begins_comment(language, token) ==> !#[trigger] stands(t, a, token)
            &&& forall|token: Seq<char>|
                begins_string(language, token) && #[trigger] stands(t, a, token) ==> encode_utf8(
                    token,
                ).len() <= encode_utf8(delimiter).len()
            &&& forall|o: int|
                a + encode_utf8(delimiter).len() <= o < e && #[trigger] stands(t, o, delimiter)
                    ==> follows_odd_backslashes(t, o)
            &&& !follows_odd_backslashes(t, e)
            &&& encode_utf8(delimiter).last() != 92
        }),
    ensures
        ({
            let t = encode_utf8(x + delimiter + y + delimiter + z);
            let a = encode_utf8(x).len() as int;
            let e = encode_utf8(x + delimiter + y).len() as int;
            let n = e + encode_utf8(delimiter).len();
            &&& t.skip(n) == encode_utf8(z)
            &&& reads_as(t, a, e, n, EditorTokenContext::String, language, target)
        }),
{
    let own = encode_utf8(delimiter);
    let tokens = pairs::lexical_tokens(language);
    let t = encode_utf8(x + delimiter + y + delimiter + z);
    let a = encode_utf8(x).len() as int;
    let mid = a + own.len();
    let e = encode_utf8(x + delimiter + y).len() as int;
    let n = e + own.len();
    lemma_five(x, delimiter, y, delimiter, z);
    lemma_begins_string(t, a, delimiter, language);
    let state = Lexical::InString(own);
    assert forall|o: int| mid <= o < e && #[trigger] text::is_boundary(t, o) implies pairs::lexical_step(
        t,
        o,
        state,
        tokens,
    ) == (text::ceil_boundary(t, o + 1), state) by {
        lemma_escaped(t, o);
        if bytes::matches_at(t, o, own) {
            assert(stands(t, o, delimiter));
        }
    }
    lemma_escaped(t, e);
    assert(t[n - 1] == own.last());
    lemma_reads_as(t, a, mid, e, n, state, language, target);
}

/// What never ends goes to the end of the text: a line comment without a line feed
/// behind it, and a block comment without its closing token.
#[verifier::rlimit(30)]
pub proof fn law_open_comment(
    language: LanguageModel,
    x: Seq<char>,
    open: Seq<char>,
    y: Seq<char>,
    target: int,
)
    requires
        pairs::tokens_wf(language),
        ({
            let t = encode_utf8(x + open + y);
            let a = encode_utf8(x).len() as int;
            &&& is_code(t, 0, a, language)
            &&& a < target <= t.len()
            &&& {
                ||| language.line_comment matches Some(line) && line@ == open && forall|k: int|
                    0 <= k < y.len() ==> #[trigger] y[k] != '\n'
                ||| language.block_comment matches Some(block) && block.open@ == open && (
                language.line_comment matches Some(line) ==> !stands(t, a, line@)) && forall|o: int|
                    a + encode_utf8(open).len() <= o < t.len() ==> !#[trigger] stands(
                        t,
                        o,
                        block.close@,
                    )
            }
        }),
    ensures
        pairs::token_context(encode_utf8(x + open + y), target, language)
            == EditorTokenContext::Comment,
{
    let tokens = pairs::lexical_tokens(language);
    let t = encode_utf8(x + open + y);
    let a = encode_utf8(x).len() as int;
    let mid = a + encode_utf8(open).len();
    let n = t.len() as int;
    lemma_cut(x, open + y);
    lemma_cut(x, open);
    lemma_cut(x + open, y);
    assert(x + open + y =~= x + (open + y));
    assert(t.subrange(a, mid) =~= encode_utf8(open));
    lemma_code_stays(t, 0, a, language);
    lemma_stays(t, 0, a, Lexical::Code, target, tokens);
    let is_line = language.line_comment matches Some(line) && line@ == open && forall|k: int|
        0 <= k < y.len() ==> #[trigger] y[k] != '\n';
    let state = if is_line {
        Lexical::LineComment
    } else {
        Lexical::BlockComment
    };
    if is_line {
        lemma_no_line_feed(y);
    } else if language.line_comment is Some {
        assert(!stands(t, a, language.line_comment->Some_0@));
    }
    assert forall|o: int| mid <= o < n && #[trigger] text::is_boundary(t, o) implies pairs::lexical_step(
        t,
        o,
        state,
        tokens,
    ) == (text::ceil_boundary(t, o + 1), state) by {
        if is_line {
            assert(t[o] == encode_utf8(y)[o - mid]);
        } else {
            assert(!stands(t, o, (language.block_comment->Some_0).close@));
        }
    }
    lemma_stays(t, mid, n, state, target, tokens);
}

proof fn lemma_own_token(
    t: Seq<u8>,
    o: int,
    language: LanguageModel,
    i: int,
    closes: bool,
    n: int,
)
    requires
        0 <= i < language.brackets.len(),
        0 <= n <= language.brackets.len(),
        is_only_bracket(t, o, language, i, closes),
    ensures
        pairs::bracket_token(t, o, language.brackets, n) == (if i < n {
            Some(
                (
                    i,
                    closes,
                    encode_utf8(
                        if closes {
                            language.brackets[i].close@
                        } else {
                            language.brackets[i].open@
                        },
                    ).len() as int,
                ),
            )
        } else {
            None
        }),
    decreases n,
{
    if n > 0 {
        lemma_own_token(t, o, language, i, closes, n - 1);
        assert(stands(t, o, language.brackets[n - 1].open@) <==> n - 1 == i && !closes);
        assert(stands(t, o, language.brackets[n - 1].close@) <==> n - 1 == i && closes);
    }
}

/// Of all halves of bracket pairs only that one of the pair of number `i` stands at `o`.
pub open spec fn is_only_bracket(
    t: Seq<u8>,
    o: int,
    language: LanguageModel,
    i: int,
    closes: bool,
) -> bool {
    forall|j: int|
        #![trigger language.brackets[j]]
        0 <= j < language.brackets.len() ==> (stands(t, o, language.brackets[j].open@) <==> j == i
            && !closes) && (stands(t, o, language.brackets[j].close@) <==> j == i && closes)
}

proof fn lemma_found_stays(t: Seq<u8>, scan: Scan, language: LanguageModel, k: int)
    requires
        0 <= k < scan.found.len(),
    ensures
        k < pairs::scan_rest(t, scan, language).len(),
        pairs::scan_rest(t, scan, language)[k] == scan.found[k],
    decreases t.len() - scan.offset,
{
    if 0 <= scan.offset < t.len() {
        let next = pairs::scan_step(t, scan, language);
        assert(next.found[k] == scan.found[k]);
        if !(next.offset <= scan.offset || next.offset > t.len()) {
            lemma_found_stays(t, next, language, k);
        }
    }
}

proof fn lemma_by_opening_holds(found: Seq<((int, int), (int, int))>, k: int)
    requires
        0 <= k < found.len(),
    ensures
        by_opening(found).contains(found[k]),
{
    let keys = Seq::new(found.len(), |i: int| (found[i].0.0, 0int));
    let order = order::sorted_order(keys, found.len() as int);
    order::lemma_sorted_order(keys, found.len() as int);
    assert(order.contains(k));
    let i = choose|i: int| 0 <= i < order.len() && order[i] == k;
    assert(by_opening(found)[i] == found[k]);
}

/// An opening bracket in code and the closing one of its kind behind it, with neither
/// a bracket nor a comment nor a string before or between them, belong together.
#[verifier::rlimit(30)]
pub proof fn law_brackets_belong_together(
    language: LanguageModel,
    x: Seq<char>,
    i: int,
    y: Seq<char>,
    z: Seq<char>,
)
    requires
        pairs::brackets_wf(language),
        0 <= i < language.brackets.len(),
        ({
            let open = language.brackets[i].open@;
            let close = language.brackets[i].close@;
            let t = encode_utf8(x + open + y + close + z);
            let a = encode_utf8(x).len() as int;
            let mid = a + encode_utf8(open).len();
            let e = encode_utf8(x + open + y).len() as int;
            &&& is_code(t, 0, a + 1, language)
            &&& is_code(t, mid, e + 1, language)
            &&& is_without_brackets(t, 0, a, language)
            &&& is_without_brackets(t, mid, e, language)
            &&& is_only_bracket(t, a, language, i, false)
            &&& is_only_bracket(t, e, language, i, true)
        }),
    ensures
        ({
            let open = language.brackets[i].open@;
            let close = language.brackets[i].close@;
            let t = encode_utf8(x + open + y + close + z);
            let a = encode_utf8(x).len() as int;
            let e = encode_utf8(x + open + y).len() as int;
            pairs::bracket_pairs(t, language).contains(
                ((a, a + encode_utf8(open).len()), (e, e + encode_utf8(close).len())),
            )
        }),
{
    let open = language.brackets[i].open@;
    let close = language.brackets[i].close@;
    let count = language.brackets.len() as int;
    let t = encode_utf8(x + open + y + close + z);
    let a = encode_utf8(x).len() as int;
    let mid = a + encode_utf8(open).len();
    let e = encode_utf8(x + open + y).len() as int;
    let n = e + encode_utf8(close).len();
    let pair = ((a, mid), (e, n));
    lemma_five(x, open, y, close, z);
    assert(is_code(t, 0, a, language));
    assert(is_code(t, a, a + 1, language));
    assert(is_code(t, mid, e, language));
    assert(is_code(t, e, e + 1, language));
    lemma_scan_code(t, start(), a, language);
    let first = at(start(), a, Lexical::Code);
    lemma_no_token(t, a, language);
    lemma_own_token(t, a, language, i, false, count);
    let second = Scan {
        offset: mid,
        state: Lexical::Code,
        open: Seq::<(int, int, int)>::empty().push((i, a, mid)),
        found: Seq::empty(),
    };
    assert(pairs::scan_step(t, first, language) == second);
    assert(pairs::scan_rest(t, first, language) == pairs::scan_rest(t, second, language));
    lemma_scan_code(t, second, e, language);
    let third = at(second, e, Lexical::Code);
    lemma_no_token(t, e, language);
    lemma_own_token(t, e, language, i, true, count);
    let fourth = pairs::scan_step(t, third, language);
    assert(fourth.found[0] == pair);
    assert(fourth.offset == n);
    assert(pairs::scan_rest(t, third, language) == pairs::scan_rest(t, fourth, language));
    lemma_found_stays(t, fourth, language, 0);
    let found = pairs::scan_rest(t, start(), language);
    assert(found[0] == pair);
    lemma_by_opening_holds(found, 0);
    assert(pairs::bracket_pairs(t, language) == by_opening(found));
}

/// A closing bracket with no bracket open before it belongs to nothing: the pairs are
/// those behind it.
pub proof fn law_stray_closing_bracket(
    language: LanguageModel,
    x: Seq<char>,
    i: int,
    z: Seq<char>,
)
    requires
        pairs::brackets_wf(language),
        0 <= i < language.brackets.len(),
        ({
            let close = language.brackets[i].close@;
            let t = encode_utf8(x + close + z);
            let a = encode_utf8(x).len() as int;
            &&& is_code(t, 0, a + 1, language)
            &&& is_without_brackets(t, 0, a, language)
            &&& is_only_bracket(t, a, language, i, true)
            &&& encode_utf8(close).last() != 92
        }),
    ensures
        ({
            let close = language.brackets[i].close@;
            pairs::bracket_pairs(encode_utf8(x + close + z), language) == all_further(
                pairs::bracket_pairs(encode_utf8(z), language),
                encode_utf8(x + close).len() as int,
            )
        }),
{
    let close = language.brackets[i].close@;
    let own = encode_utf8(close);
    let t = encode_utf8(x + close + z);
    let a = encode_utf8(x).len() as int;
    let n = a + own.len();
    let p = encode_utf8(x + close);
    let q = encode_utf8(z);
    lemma_cut(x, close + z);
    lemma_cut(x, close);
    lemma_cut(x + close, z);
    assert(x + close + z =~= x + (close + z));
    assert(t == p + q);
    assert(own.len() > 0);
    assert(p.last() == own.last());
    assert(is_code(t, 0, a, language));
    assert(is_code(t, a, a + 1, language));
    lemma_scan_code(t, start(), a, language);
    let first = at(start(), a, Lexical::Code);
    lemma_no_token(t, a, language);
    lemma_own_token(t, a, language, i, true, language.brackets.len() as int);
    let second = at(start(), n, Lexical::Code);
    assert(pairs::scan_step(t, first, language) == second);
    assert(pairs::scan_rest(t, first, language) == pairs::scan_rest(t, second, language));
    lemma_scan_behind(p, q, start(), language);
    let meant = scan_further(start(), n);
    assert(meant.open =~= second.open);
    assert(meant.found =~= second.found);
    assert(meant == second);
    let rest = pairs::scan_rest(q, start(), language);
    lemma_by_opening_further(rest, n);
    assert(pairs::bracket_pairs(q, language) == by_opening(rest));
    assert(pairs::bracket_pairs(t, language) == by_opening(all_further(rest, n)));
}

/// Of the halves of brackets that stand at one place the longest counts.
pub proof fn law_longest_bracket(t: Seq<u8>, o: int, language: LanguageModel, n: int)
    requires
        0 <= n <= language.brackets.len(),
    ensures
        match pairs::bracket_token(t, o, language.brackets, n) {
            Some((i, closes, len)) => {
                let own = if closes {
                    language.brackets[i].close@
                } else {
                    language.brackets[i].open@
                };
                &&& 0 <= i < n
                &&& stands(t, o, own)
                &&& len == encode_utf8(own).len()
                &&& forall|j: int|
                    #![trigger language.brackets[j]]
                    0 <= j < n ==> (stands(t, o, language.brackets[j].open@) ==> encode_utf8(
                        language.brackets[j].open@,
                    ).len() <= len) && (stands(t, o, language.brackets[j].close@) ==> encode_utf8(
                        language.brackets[j].close@,
                    ).len() <= len)
            },
            None => forall|j: int|
                #![trigger language.brackets[j]]
                0 <= j < n ==> !stands(t, o, language.brackets[j].open@) && !stands(
                    t,
                    o,
                    language.brackets[j].close@,
                ),
        },
    decreases n,
{
    if n > 0 {
        law_longest_bracket(t, o, language, n - 1);
    }
}

} // verus!

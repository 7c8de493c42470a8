//! What brackets at the caret, and typing a half of a pair, come to.

use crate::bytes;
use crate::chars;
use crate::edit;
use crate::lexical_laws;
use crate::lsp::linked_editing;
use crate::pairs;
use crate::pairs::{EditorAutoClosingPair, EditorCharacterPair, LanguageModel};
use crate::pairs::{TrackedAutoClosingPair, TrackedModel};
use crate::scalars;
use crate::text;
use vstd::prelude::*;
use vstd::utf8::*;

verus! {

/// The caret stands before, in or behind the bracket.
pub open spec fn touches(bracket: (int, int), cursor: int) -> bool {
    bracket.0 <= cursor && cursor <= bracket.1
}

proof fn lemma_pair_near(pairs: Seq<((int, int), (int, int))>, cursor: int, from: int)
    requires
        0 <= from <= pairs.len(),
    ensures
        match pairs::pair_near(pairs, cursor, from) {
            Some(i) => from <= i < pairs.len() && (touches(pairs[i].0, cursor) || touches(
                pairs[i].1,
                cursor,
            )) && forall|j: int|
                from <= j < i ==> !touches((#[trigger] pairs[j]).0, cursor) && !touches(
                    pairs[j].1,
                    cursor,
                ),
            None => forall|j: int|
                from <= j < pairs.len() ==> !touches((#[trigger] pairs[j]).0, cursor) && !touches(
                    pairs[j].1,
                    cursor,
                ),
        },
    decreases pairs.len() - from,
{
    if from < pairs.len() && !touches(pairs[from].0, cursor) && !touches(pairs[from].1, cursor) {
        lemma_pair_near(pairs, cursor, from + 1);
    }
}

/// The brackets marked at the caret are the first pair of which one touches it, and
/// none only where none does.
pub proof fn law_brackets_at_caret(pairs: Seq<((int, int), (int, int))>, cursor: int)
    ensures
        match pairs::pair_near(pairs, cursor, 0) {
            Some(i) => 0 <= i < pairs.len() && (touches(pairs[i].0, cursor) || touches(
                pairs[i].1,
                cursor,
            )) && forall|j: int|
                0 <= j < i ==> !touches((#[trigger] pairs[j]).0, cursor) && !touches(
                    pairs[j].1,
                    cursor,
                ),
            None => forall|j: int|
                0 <= j < pairs.len() ==> !touches((#[trigger] pairs[j]).0, cursor) && !touches(
                    pairs[j].1,
                    cursor,
                ),
        },
{
    lemma_pair_near(pairs, cursor, 0);
}

proof fn lemma_half_near(
    pairs: Seq<((int, int), (int, int))>,
    cursor: int,
    closing: bool,
    from: int,
)
    requires
        0 <= from <= pairs.len(),
    ensures
        match pairs::half_near(pairs, cursor, closing, from) {
            Some(i) => from <= i < pairs.len() && touches(half(pairs[i], closing), cursor)
                && forall|j: int|
                from <= j < i ==> !touches(half(#[trigger] pairs[j], closing), cursor),
            None => forall|j: int|
                from <= j < pairs.len() ==> !touches(half(#[trigger] pairs[j], closing), cursor),
        },
    decreases pairs.len() - from,
{
    if from < pairs.len() && !touches(half(pairs[from], closing), cursor) {
        lemma_half_near(pairs, cursor, closing, from + 1);
    }
}

/// The opening or the closing bracket of a pair.
pub open spec fn half(pair: ((int, int), (int, int)), closing: bool) -> (int, int) {
    if closing {
        pair.1
    } else {
        pair.0
    }
}

/// The caret stands behind the opening and before the closing bracket.
pub open spec fn surrounds(pair: ((int, int), (int, int)), cursor: int) -> bool {
    pair.0.1 <= cursor && cursor <= pair.1.0
}

proof fn lemma_innermost(pairs: Seq<((int, int), (int, int))>, cursor: int, n: int)
    requires
        0 <= n <= pairs.len(),
    ensures
        match pairs::innermost_around(pairs, cursor, n) {
            Some(i) => 0 <= i < n && surrounds(pairs[i], cursor) && forall|j: int|
                0 <= j < n && surrounds(#[trigger] pairs[j], cursor) ==> pairs[j].0.0
                    <= pairs[i].0.0,
            None => forall|j: int| 0 <= j < n ==> !surrounds(#[trigger] pairs[j], cursor),
        },
    decreases n,
{
    if n > 0 {
        lemma_innermost(pairs, cursor, n - 1);
    }
}

#[verifier::rlimit(30)]
proof fn lemma_next_bracket(pairs: Seq<((int, int), (int, int))>, cursor: int, n: int)
    requires
        0 <= n <= pairs.len(),
    ensures
        match pairs::next_bracket(pairs, cursor, n) {
            Some(offset) => offset > cursor && (exists|j: int|
                0 <= j < n && (offset == (#[trigger] pairs[j]).0.0 || offset == pairs[j].1.0))
                && forall|j: int|
                0 <= j < n ==> ((#[trigger] pairs[j]).0.0 > cursor ==> pairs[j].0.0 >= offset) && (
                pairs[j].1.0 > cursor ==> pairs[j].1.0 >= offset),
            None => forall|j: int|
                0 <= j < n ==> (#[trigger] pairs[j]).0.0 <= cursor && pairs[j].1.0 <= cursor,
        },
    decreases n,
{
    if n > 0 {
        lemma_next_bracket(pairs, cursor, n - 1);
        let offset = pairs::next_bracket(pairs, cursor, n);
        if offset is Some {
            let before = pairs::next_bracket(pairs, cursor, n - 1);
            if before == offset {
                let j = choose|j: int|
                    0 <= j < n - 1 && (offset->Some_0 == (#[trigger] pairs[j]).0.0
                        || offset->Some_0 == pairs[j].1.0);
                assert(0 <= j < n);
            } else {
                assert(offset->Some_0 == pairs[n - 1].0.0 || offset->Some_0 == pairs[n - 1].1.0);
            }
        }
    }
}

/// Going to a bracket leads from an opening bracket at the caret to its closing one,
/// from a closing one to its opening one, else to the end of the pair around the caret
/// that opens last, and else to the next bracket behind it.
#[verifier::rlimit(30)]
pub proof fn law_way_to_bracket(pairs: Seq<((int, int), (int, int))>, cursor: int, i: int)
    requires
        0 <= i < pairs.len(),
    ensures
        ({
            let target = pairs::navigation_target(pairs, cursor);
            let opens = exists|j: int|
                0 <= j < pairs.len() && touches((#[trigger] pairs[j]).0, cursor);
            let closes = exists|j: int|
                0 <= j < pairs.len() && touches((#[trigger] pairs[j]).1, cursor);
            let around = exists|j: int| 0 <= j < pairs.len() && surrounds(#[trigger] pairs[j], cursor);
            &&& touches(pairs[i].0, cursor) && (forall|j: int|
                0 <= j < i ==> !touches((#[trigger] pairs[j]).0, cursor)) ==> target == Some(
                pairs[i].1.0,
            )
            &&& !opens && touches(pairs[i].1, cursor) && (forall|j: int|
                0 <= j < i ==> !touches((#[trigger] pairs[j]).1, cursor)) ==> target == Some(
                pairs[i].0.0,
            )
            &&& !opens && !closes && surrounds(pairs[i], cursor) && (forall|j: int|
                0 <= j < pairs.len() && j != i && surrounds(#[trigger] pairs[j], cursor)
                    ==> pairs[j].0.0 < pairs[i].0.0) ==> target == Some(pairs[i].1.0)
            &&& !opens && !closes && !around ==> match target {
                Some(offset) => offset > cursor && (exists|j: int|
                    0 <= j < pairs.len() && (offset == (#[trigger] pairs[j]).0.0 || offset
                        == pairs[j].1.0)) && (pairs[i].0.0 > cursor ==> pairs[i].0.0 >= offset) && (
                pairs[i].1.0 > cursor ==> pairs[i].1.0 >= offset),
                None => pairs[i].0.0 <= cursor && pairs[i].1.0 <= cursor,
            }
        }),
{
    let n = pairs.len() as int;
    lemma_half_near(pairs, cursor, false, 0);
    lemma_half_near(pairs, cursor, true, 0);
    lemma_innermost(pairs, cursor, n);
    lemma_next_bracket(pairs, cursor, n);
    assert(half(pairs[i], false) == pairs[i].0 && half(pairs[i], true) == pairs[i].1);
}

/// From an opening bracket to its closing one and back.
pub proof fn law_way_to_bracket_and_back(pairs: Seq<((int, int), (int, int))>, i: int)
    requires
        0 <= i < pairs.len(),
        forall|j: int|
            0 <= j < pairs.len() && j != i ==> !touches((#[trigger] pairs[j]).0, pairs[i].0.0),
        forall|j: int| 0 <= j < pairs.len() ==> !touches((#[trigger] pairs[j]).0, pairs[i].1.0),
        forall|j: int|
            0 <= j < pairs.len() && j != i ==> !touches((#[trigger] pairs[j]).1, pairs[i].1.0),
        pairs[i].0.0 <= pairs[i].0.1,
        pairs[i].1.0 <= pairs[i].1.1,
    ensures
        pairs::navigation_target(pairs, pairs[i].0.0) == Some(pairs[i].1.0),
        pairs::navigation_target(pairs, pairs[i].1.0) == Some(pairs[i].0.0),
{
    law_way_to_bracket(pairs, pairs[i].0.0, i);
    law_way_to_bracket(pairs, pairs[i].1.0, i);
}

/// Typing `key` behind `x` completes the opening token.
pub open spec fn ends_with(x: Seq<u8>, key: Seq<u8>, open: Seq<u8>) -> bool {
    let now = x + key;
    key.len() <= open.len() <= now.len() && now.skip(now.len() - open.len()) == open
}

proof fn lemma_completes(t: Seq<u8>, o: int, key: Seq<u8>, open: Seq<u8>)
    requires
        0 <= o <= t.len(),
    ensures
        pairs::completes_open(t, o, key, open) == ends_with(t.take(o), key, open),
{
    let x = t.take(o);
    let now = x + key;
    let lead = open.len() - key.len();
    if lead >= 0 && o >= lead {
        let tail = now.skip(now.len() - open.len());
        assert(tail =~= t.subrange(o - lead, o) + key);
        assert(open =~= open.subrange(0, lead) + open.subrange(lead, open.len() as int));
        if tail == open {
            assert(tail.subrange(0, lead) =~= t.subrange(o - lead, o));
            assert(tail.subrange(lead, open.len() as int) =~= key);
        }
    }
}

/// The pair of number `i` is the one that typing completes: of those with the longest
/// opening token the last.
pub open spec fn is_completed(
    x: Seq<u8>,
    key: Seq<u8>,
    pairs: Seq<EditorAutoClosingPair>,
    i: int,
) -> bool {
    &&& 0 <= i < pairs.len()
    &&& ends_with(x, key, encode_utf8(pairs[i].open@))
    &&& forall|j: int|
        #![trigger pairs[j]]
        0 <= j < pairs.len() && ends_with(x, key, encode_utf8(pairs[j].open@)) ==> encode_utf8(
            pairs[j].open@,
        ).len() <= encode_utf8(pairs[i].open@).len() && (encode_utf8(pairs[j].open@).len()
            == encode_utf8(pairs[i].open@).len() ==> j <= i)
}

#[verifier::rlimit(30)]
proof fn lemma_completed(
    t: Seq<u8>,
    o: int,
    key: Seq<u8>,
    pairs: Seq<EditorAutoClosingPair>,
    n: int,
)
    requires
        0 <= o <= t.len(),
        0 <= n <= pairs.len(),
    ensures
        match pairs::completed_pair(t, o, key, pairs, n) {
            Some(i) => is_completed(t.take(o), key, pairs.take(n), i),
            None => forall|j: int|
                0 <= j < n ==> !ends_with(
                    t.take(o),
                    key,
                    encode_utf8((#[trigger] pairs[j]).open@),
                ),
        },
    decreases n,
{
    if n > 0 {
        lemma_completed(t, o, key, pairs, n - 1);
        lemma_completes(t, o, key, encode_utf8(pairs[n - 1].open@));
        let before = pairs::completed_pair(t, o, key, pairs, n - 1);
        let now = pairs::completed_pair(t, o, key, pairs, n);
        let x = t.take(o);
        assert(pairs.take(n)[n - 1] == pairs[n - 1]);
        if now is Some {
            let i = now->Some_0;
            if before is Some {
                assert(pairs.take(n - 1)[before->Some_0] == pairs[before->Some_0]);
            }
            assert forall|j: int|
                #![trigger pairs.take(n)[j]]
                0 <= j < n && ends_with(
                    x,
                    key,
                    encode_utf8(pairs.take(n)[j].open@),
                ) implies encode_utf8(pairs.take(n)[j].open@).len() <= encode_utf8(
                pairs.take(n)[i].open@,
            ).len() && (encode_utf8(pairs.take(n)[j].open@).len() == encode_utf8(
                pairs.take(n)[i].open@,
            ).len() ==> j <= i) by {
                if j < n - 1 {
                    assert(pairs.take(n)[j] == pairs.take(n - 1)[j]);
                    assert(pairs[j] == pairs.take(n - 1)[j]);
                }
            }
        }
    }
}

/// What forbids a pair to close by itself behind `x = w + lead` and before `y`, where
/// the opening token is `lead` and the key: its excluded contexts; for quotation marks
/// a backslash before the key, or a word before the token; and a text behind the caret
/// that begins neither with one of the characters that allow it nor with a closing
/// token.
pub open spec fn may_close(
    w: Seq<char>,
    lead: Seq<char>,
    y: Seq<char>,
    pair: EditorAutoClosingPair,
    language: LanguageModel,
) -> bool {
    let t = encode_utf8(w + lead + y);
    let o = encode_utf8(w + lead).len() as int;
    let last = encode_utf8(pair.open@).last();
    let quote = encode_utf8(pair.open@).len() > 0 && (last == 34 || last == 39 || last == 96);
    &&& !pair.not_in@.contains(pairs::token_context(t, o, language))
    &&& quote ==> !lexical_laws::follows_odd_backslashes(t, o)
    &&& quote ==> w.len() == 0 || !(w.last() == '_' || chars::char_is_alphanumeric(w.last()))
    &&& y.len() == 0 || allowed_before(language, quote).contains(y[0]) || exists|j: int|
        0 <= j < language.auto_closing_pairs.len() && lexical_laws::stands(
            t,
            o,
            (#[trigger] language.auto_closing_pairs[j]).close@,
        )
}

/// The characters before which a pair closes by itself.
pub open spec fn allowed_before(language: LanguageModel, quote: bool) -> Seq<char> {
    match language.auto_close_before {
        Some(characters) => characters@,
        None => if quote {
            seq![';', ':', '.', ',', '=', '}', ']', ')', '>', ' ', '\n', '\t']
        } else {
            seq!['\'', '"', '`', ';', ':', '.', ',', '=', '}', ']', ')', '>', ' ', '\n', '\t']
        },
    }
}

proof fn lemma_allowed_before(language: LanguageModel, quote: bool)
    ensures
        pairs::close_before(language, quote) == allowed_before(language, quote),
{
    reveal_strlit(";:.,=}])> \n\t");
    reveal_strlit("'\"`;:.,=}])> \n\t");
    assert(pairs::close_before(language, quote) =~= allowed_before(language, quote));
}

/// A key typed at the caret that completes an opening token writes the closing token
/// behind the caret, just where nothing forbids it; where it completes none, nothing is
/// added.
#[verifier::rlimit(30)]
pub proof fn law_typed_pair(
    language: LanguageModel,
    w: Seq<char>,
    lead: Seq<char>,
    key: char,
    y: Seq<char>,
    i: int,
)
    requires
        is_completed(
            encode_utf8(w + lead),
            encode_utf8(seq![key]),
            language.auto_closing_pairs,
            i,
        ),
        language.auto_closing_pairs[i].open@ == lead + seq![key],
    ensures
        ({
            let t = encode_utf8(w + lead + y);
            let o = encode_utf8(w + lead).len() as int;
            let pair = language.auto_closing_pairs[i];
            match pairs::typing_model(t, o, o, seq![key], language) {
                Some(plan) => may_close(w, lead, y, pair, language) && plan.start == plan.end
                    && plan.start == o + encode_utf8(seq![key]).len() && edit::replaced(
                    t,
                    (o, o, plan.replacement),
                ) == encode_utf8(w + lead + seq![key]) + encode_utf8(pair.close@) + encode_utf8(y)
                    && plan.watched is Some,
                None => !may_close(w, lead, y, pair, language),
            }
        }),
{
    let x = w + lead;
    let s = x + y;
    let t = encode_utf8(s);
    let o = encode_utf8(x).len() as int;
    let own = encode_utf8(seq![key]);
    let all = language.auto_closing_pairs;
    let pair = all[i];
    let open = encode_utf8(pair.open@);
    text::lemma_encode_concat(x, y);
    text::lemma_encode_concat(w, lead);
    text::lemma_encode_concat(x, seq![key]);
    text::lemma_encode_concat(lead, seq![key]);
    linked_editing::lemma_char_boundary(s, x.len() as int);
    assert(s.take(x.len() as int) =~= x);
    assert(t.take(o) =~= encode_utf8(x));
    lemma_completed(t, o, own, all, all.len() as int);
    assert(all.take(all.len() as int) =~= all);
    let chosen = pairs::completed_pair(t, o, own, all, all.len() as int);
    assert(all[i] == pair);
    assert(chosen is Some);
    assert(all[chosen->Some_0] == all[chosen->Some_0]);
    assert(chosen == Some(i));
    lexical_laws::lemma_escaped(t, o);
    let before_open = o - (open.len() - own.len());
    assert(before_open == encode_utf8(w).len());
    if w.len() > 0 {
        assert(s.take(w.len() as int) =~= w);
        assert(s.take(w.len() - 1) =~= w.drop_last());
        scalars::lemma_char_place(s, w.len() - 1);
        assert(s[w.len() - 1] == w.last());
    } else {
        assert(w =~= Seq::empty());
        assert(encode_utf8(w) =~= Seq::<u8>::empty());
    }
    if y.len() > 0 {
        scalars::lemma_char_place(s, x.len() as int);
        assert(s[x.len() as int] == y[0]);
    } else {
        assert(y =~= Seq::empty());
        assert(encode_utf8(y) =~= Seq::<u8>::empty());
    }
    let quote = pairs::is_quote_token(open);
    lemma_allowed_before(language, quote);
    if pairs::at_closing_token(t, o, all) {
        let j = choose|j: int|
            0 <= j < all.len() && bytes::matches_at(t, o, encode_utf8((#[trigger] all[j]).close@));
        assert(lexical_laws::stands(t, o, all[j].close@));
    }
    let plan = pairs::typing_model(t, o, o, seq![key], language);
    if plan is Some {
        assert(edit::replaced(t, (o, o, plan->Some_0.replacement)) =~= encode_utf8(
            x + seq![key],
        ) + encode_utf8(pair.close@) + encode_utf8(y));
    }
}

/// A key that completes no opening token, or a text of more than one character, adds
/// nothing at a caret.
pub proof fn law_typed_without_pair(
    language: LanguageModel,
    t: Seq<u8>,
    o: int,
    typed: Seq<char>,
)
    requires
        0 <= o <= t.len(),
        typed.len() != 1 || forall|j: int|
            0 <= j < language.auto_closing_pairs.len() ==> !ends_with(
                t.take(o),
                encode_utf8(typed),
                encode_utf8((#[trigger] language.auto_closing_pairs[j]).open@),
            ),
    ensures
        pairs::typing_model(t, o, o, typed, language) is None,
{
    let all = language.auto_closing_pairs;
    lemma_completed(t, o, encode_utf8(typed), all, all.len() as int);
    assert(all.take(all.len() as int) =~= all);
    let chosen = pairs::completed_pair(t, o, encode_utf8(typed), all, all.len() as int);
    if typed.len() == 1 && chosen is Some {
        assert(ends_with(t.take(o), encode_utf8(typed), encode_utf8(all[chosen->Some_0].open@)));
    }
}

/// A pair is watched through an edit just where the edit keeps clear of its halves: it
/// lies before, between or behind them.
pub proof fn law_watched_pair_is_kept(pair: TrackedModel, start: int, end: int, inserted: int)
    requires
        start <= end,
        pair.open.0 < pair.open.1 <= pair.close.0 < pair.close.1,
    ensures
        pairs::adjusted_pair(pair, start, end, inserted) is Some <==> {
            ||| end <= pair.open.0
            ||| pair.open.1 <= start && end <= pair.close.0
            ||| pair.close.1 <= start
        },
        pair.close.1 <= start ==> pairs::adjusted_pair(pair, start, end, inserted) == Some(pair),
{
}

proof fn lemma_overtyped(
    t: Seq<u8>,
    cursor: int,
    typed: Seq<u8>,
    watched: Seq<TrackedAutoClosingPair>,
    from: int,
)
    requires
        0 <= from <= watched.len(),
    ensures
        match pairs::overtyped_pair(t, cursor, typed, watched, from) {
            Some(i) => from <= i < watched.len() && pairs::overtypes(
                t,
                cursor,
                typed,
                watched[i].model(),
            ),
            None => forall|j: int|
                from <= j < watched.len() ==> !pairs::overtypes(
                    t,
                    cursor,
                    typed,
                    (#[trigger] watched[j]).model(),
                ),
        },
    decreases watched.len() - from,
{
    if from < watched.len() && !pairs::overtypes(t, cursor, typed, watched[from].model()) {
        lemma_overtyped(t, cursor, typed, watched, from + 1);
    }
}

proof fn lemma_around(t: Seq<u8>, cursor: int, watched: Seq<TrackedAutoClosingPair>, from: int)
    requires
        0 <= from <= watched.len(),
    ensures
        match pairs::pair_around(t, cursor, watched, from) {
            Some(i) => from <= i < watched.len() && pairs::is_between(
                t,
                cursor,
                watched[i].model(),
            ),
            None => forall|j: int|
                from <= j < watched.len() ==> !pairs::is_between(
                    t,
                    cursor,
                    (#[trigger] watched[j]).model(),
                ),
        },
    decreases watched.len() - from,
{
    if from < watched.len() && !pairs::is_between(t, cursor, watched[from].model()) {
        lemma_around(t, cursor, watched, from + 1);
    }
}

/// The text reads `s` in `from..to`.
pub open spec fn holds(t: Seq<u8>, from: int, to: int, s: Seq<char>) -> bool {
    0 <= from <= to <= t.len() && t.subrange(from, to) == encode_utf8(s)
}

/// A closing half is typed over just where a watched pair has it right behind the caret
/// and it is what was typed.
pub proof fn law_typed_over(
    t: Seq<u8>,
    cursor: int,
    typed: Seq<char>,
    watched: Seq<TrackedAutoClosingPair>,
    k: int,
)
    requires
        valid_utf8(t),
        0 <= k < watched.len(),
    ensures
        match pairs::overtyped_pair(t, cursor, encode_utf8(typed), watched, 0) {
            Some(i) => 0 <= i < watched.len() && watched[i].close.start == cursor && holds(
                t,
                cursor,
                watched[i].close.end as int,
                typed,
            ),
            None => !(watched[k].close.start == cursor && watched[k].close_text@ == typed && holds(
                t,
                cursor,
                watched[k].close.end as int,
                typed,
            ) && is_char_boundary(t, cursor) && is_char_boundary(t, watched[k].close.end as int)),
        },
{
    lemma_overtyped(t, cursor, encode_utf8(typed), watched, 0);
    text::lemma_boundary(t, cursor);
    text::lemma_boundary(t, watched[k].close.end as int);
}

/// Backspace takes both halves just where a watched pair has one right before and the
/// other right behind the caret.
pub proof fn law_both_halves_taken_back(
    t: Seq<u8>,
    cursor: int,
    watched: Seq<TrackedAutoClosingPair>,
    k: int,
)
    requires
        valid_utf8(t),
        0 <= k < watched.len(),
    ensures
        match pairs::pair_around(t, cursor, watched, 0) {
            Some(i) => 0 <= i < watched.len() && watched[i].open.end == cursor
                && watched[i].close.start == cursor && holds(
                t,
                watched[i].open.start as int,
                cursor,
                watched[i].open_text@,
            ) && holds(t, cursor, watched[i].close.end as int, watched[i].close_text@),
            None => !(watched[k].open.end == cursor && watched[k].close.start == cursor && holds(
                t,
                watched[k].open.start as int,
                cursor,
                watched[k].open_text@,
            ) && holds(t, cursor, watched[k].close.end as int, watched[k].close_text@)
                && is_char_boundary(t, watched[k].open.start as int) && is_char_boundary(t, cursor)
                && is_char_boundary(t, watched[k].close.end as int)),
        },
{
    lemma_around(t, cursor, watched, 0);
    text::lemma_boundary(t, cursor);
    text::lemma_boundary(t, watched[k].open.start as int);
    text::lemma_boundary(t, watched[k].close.end as int);
}

/// A selection is put between the tokens of the first pair that opens with the typed
/// character, unless it is blank, or is one quotation mark and the pair quotes.
#[verifier::rlimit(30)]
pub proof fn law_surrounded_selection(
    language: LanguageModel,
    x: Seq<char>,
    m: Seq<char>,
    y: Seq<char>,
    key: char,
    i: int,
)
    requires
        m.len() > 0,
        0 <= i < language.surrounding_pairs.len(),
        language.surrounding_pairs[i].open@ == seq![key],
        forall|j: int|
            0 <= j < i ==> (#[trigger] language.surrounding_pairs[j]).open@ != seq![key],
    ensures
        ({
            let t = encode_utf8(x + m + y);
            let start = encode_utf8(x).len() as int;
            let end = encode_utf8(x + m).len() as int;
            let last = encode_utf8(seq![key]).last();
            let selected = encode_utf8(m);
            let blank = forall|k: int|
                0 <= k < selected.len() ==> #[trigger] selected[k] == 32 || selected[k] == 9;
            let one_quote = selected.len() == 1 && (selected[0] == 34 || selected[0] == 39
                || selected[0] == 96);
            let quote = last == 34 || last == 39 || last == 96;
            match pairs::typing_model(t, start, end, seq![key], language) {
                Some(plan) => !blank && !(quote && one_quote) && edit::replaced(
                    t,
                    (start, end, plan.replacement),
                ) == encode_utf8(x) + encode_utf8(seq![key]) + selected + encode_utf8(
                    language.surrounding_pairs[i].close@,
                ) + encode_utf8(y) && plan.start == start + encode_utf8(seq![key]).len() && plan.end
                    == plan.start + selected.len(),
                None => blank || (quote && one_quote),
            }
        }),
{
    let s = x + m + y;
    let t = encode_utf8(s);
    let own = encode_utf8(seq![key]);
    let start = encode_utf8(x).len() as int;
    let end = encode_utf8(x + m).len() as int;
    let all = language.surrounding_pairs;
    text::lemma_encode_concat(x, m);
    text::lemma_encode_concat(x + m, y);
    linked_editing::lemma_char_boundary(s, x.len() as int);
    linked_editing::lemma_char_boundary(s, (x + m).len() as int);
    assert(s.take(x.len() as int) =~= x);
    assert(s.take((x + m).len() as int) =~= x + m);
    scalars::lemma_char_place(s, x.len() as int);
    assert(m =~= seq![m[0]] + m.skip(1));
    text::lemma_encode_concat(seq![m[0]], m.skip(1));
    assert(s[x.len() as int] == m[0]);
    assert(start < end);
    assert(t.subrange(start, end) =~= encode_utf8(m));
    let single = seq![key];
    scalars::lemma_char_place(single, 0);
    assert(own.len() > 0);
    lemma_surrounding(seq![key], all, i, 0);
    let plan = pairs::typing_model(t, start, end, seq![key], language);
    if plan is Some {
        assert(edit::replaced(t, (start, end, plan->Some_0.replacement)) =~= encode_utf8(x) + own
            + encode_utf8(m) + encode_utf8(all[i].close@) + encode_utf8(y));
    }
}

proof fn lemma_surrounding(typed: Seq<char>, all: Seq<EditorCharacterPair>, i: int, from: int)
    requires
        0 <= from <= i < all.len(),
        all[i].open@ == typed,
        forall|j: int| 0 <= j < i ==> (#[trigger] all[j]).open@ != typed,
    ensures
        pairs::surrounding_pair(encode_utf8(typed), all, from) == Some(i),
    decreases i - from,
{
    encode_utf8_decode_utf8(typed);
    encode_utf8_decode_utf8(all[from].open@);
    if from < i {
        assert(all[from].open@ != typed);
        lemma_surrounding(typed, all, i, from + 1);
    }
}

/// A token is kept where it is not empty and not too long, a pair where both of its
/// tokens are.
#[verifier::rlimit(30)]
pub proof fn law_kept_pairs(
    pairs: Seq<(Seq<char>, Seq<char>)>,
    n: int,
    pair: (Seq<char>, Seq<char>),
)
    requires
        0 <= n <= pairs.len(),
    ensures
        pairs::valid_pairs(pairs, n).contains(pair) <==> pairs.take(n).contains(pair) && 0
            < encode_utf8(pair.0).len() <= pairs::MAX_TOKEN_BYTES && 0 < encode_utf8(pair.1).len()
            <= pairs::MAX_TOKEN_BYTES,
    decreases n,
{
    let now = pairs::valid_pairs(pairs, n);
    if n > 0 {
        law_kept_pairs(pairs, n - 1, pair);
        let before = pairs::valid_pairs(pairs, n - 1);
        let own = pairs[n - 1];
        assert(pairs.take(n) =~= pairs.take(n - 1).push(own));
        if pairs.take(n - 1).contains(pair) {
            let k = choose|k: int| 0 <= k < n - 1 && #[trigger] pairs.take(n - 1)[k] == pair;
            assert(pairs.take(n)[k] == pair);
        }
        if pairs.take(n).contains(pair) {
            let k = choose|k: int| 0 <= k < n && #[trigger] pairs.take(n)[k] == pair;
            if k < n - 1 {
                assert(pairs.take(n - 1)[k] == pair);
            }
        }
        if before.contains(pair) {
            let k = choose|k: int| 0 <= k < before.len() && before[k] == pair;
            assert(now[k] == pair);
        }
        if now.contains(pair) {
            let k = choose|k: int| 0 <= k < now.len() && now[k] == pair;
            if k < before.len() {
                assert(before[k] == pair);
            }
        }
        if own == pair {
            assert(pairs.take(n)[n - 1] == pair);
            if pairs::is_valid_pair(pair) {
                assert(now.last() == pair);
            }
        }
    }
}

} // verus!

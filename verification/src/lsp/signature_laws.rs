//! What is shown of signatures, and where positions and places lie.

use crate::bytes;
use crate::chars;
use crate::cursor::Position;
use crate::join_laws;
use crate::lexical_laws;
use crate::lsp::diagnostics;
use crate::lsp::diagnostics::DiagnosticRelatedInformation;
use crate::lsp::position;
use crate::lsp::signature_help;
use crate::lsp::signature_help::{HelpModel, ParameterLabel, SignatureModel};
use crate::occurrence_laws;
use crate::scalars;
use crate::snippet_laws;
use crate::state::InputState;
use crate::text;
use crate::text_laws;
use crate::value_laws;
use vstd::prelude::*;
use vstd::utf8::*;

verus! {

/// The number of UTF-16 units of a text: two for a character beyond the first plane.
pub open spec fn utf16_len(s: Seq<char>) -> int
    decreases s.len(),
{
    if s.len() == 0 {
        0
    } else {
        utf16_len(s.drop_last()) + if s.last() as u32 >= 65_536 {
            2int
        } else {
            1int
        }
    }
}

proof fn lemma_utf16_rises(s: Seq<char>, i: int, k: int)
    requires
        0 <= i < k <= s.len(),
    ensures
        utf16_len(s.take(i)) < utf16_len(s.take(k)),
    decreases k - i,
{
    assert(s.take(k).drop_last() =~= s.take(k - 1));
    if i < k - 1 {
        lemma_utf16_rises(s, i, k - 1);
    }
}

proof fn lemma_utf16_byte(s: Seq<char>, k: int, i: int)
    requires
        0 <= i <= k <= s.len(),
    ensures
        signature_help::utf16_byte(
            s,
            utf16_len(s.take(k)),
            i,
            utf16_len(s.take(i)),
            encode_utf8(s.take(i)).len() as int,
        ) == Some(encode_utf8(s.take(k)).len() as int),
    decreases k - i,
{
    if i < k {
        lemma_utf16_rises(s, i, k);
        assert(s.take(i + 1) =~= s.take(i).push(s[i]));
        assert(s.take(i + 1).drop_last() =~= s.take(i));
        assert(s.take(i + 1).last() == s[i]);
        chars::lemma_byte_len_push(s.take(i), s[i]);
        assert(utf16_len(s.take(i + 1)) == utf16_len(s.take(i)) + signature_help::utf16_units(s[i]));
        assert(encode_utf8(s.take(i + 1)).len() == encode_utf8(s.take(i)).len() + chars::char_len(
            s[i],
        ));
        lemma_utf16_byte(s, k, i + 1);
    }
}

/// A parameter that is given by UTF-16 units is the part of the label that lies
/// between as many of them.
pub proof fn law_parameter_by_units(
    signature: SignatureModel,
    index: int,
    x: Seq<char>,
    m: Seq<char>,
    y: Seq<char>,
)
    requires
        signature.label@ == x + m + y,
        signature.parameters is Some,
        0 <= index < (signature.parameters->Some_0).len(),
        (signature.parameters->Some_0)[index].label matches ParameterLabel::Offsets { start, end }
            && start == utf16_len(x) && end == utf16_len(x + m),
        m.len() > 0,
    ensures
        signature_help::parameter_span(signature, index) == Some(
            (encode_utf8(x).len() as int, encode_utf8(x + m).len() as int),
        ),
{
    let s = x + m + y;
    let none = Seq::<char>::empty();
    let a = x.len() as int;
    let b = (x + m).len() as int;
    assert(s.take(a) =~= x);
    assert(s.take(b) =~= x + m);
    assert(s.take(0) =~= none);
    assert(encode_utf8(none) =~= Seq::<u8>::empty());
    lemma_utf16_byte(s, a, 0);
    lemma_utf16_byte(s, b, 0);
    text::lemma_encode_concat(x, m);
    scalars::lemma_char_place(m, 0);
}

/// A parameter that is given by its text is the first place of it in the label, where
/// no word goes on over its ends there.
#[verifier::rlimit(30)]
pub proof fn law_parameter_by_text(
    signature: SignatureModel,
    index: int,
    x: Seq<char>,
    m: Seq<char>,
    y: Seq<char>,
)
    requires
        signature.label@ == x + m + y,
        signature.parameters is Some,
        0 <= index < (signature.parameters->Some_0).len(),
        (signature.parameters->Some_0)[index].label matches ParameterLabel::Simple { label }
            && label@ == m,
        m.len() > 0,
        x.len() == 0 || !occurrence_laws::is_of_word(x.last()),
        y.len() == 0 || !occurrence_laws::is_of_word(y[0]),
        forall|o: int|
            0 <= o < encode_utf8(x).len() ==> !#[trigger] lexical_laws::stands(
                encode_utf8(x + m + y),
                o,
                m,
            ),
    ensures
        signature_help::parameter_span(signature, index) == Some(
            (encode_utf8(x).len() as int, encode_utf8(x + m).len() as int),
        ),
{
    let s = x + m + y;
    let t = encode_utf8(s);
    let own = encode_utf8(m);
    let a = encode_utf8(x).len() as int;
    let b = a + own.len();
    let i = x.len() as int;
    let j = (x + m).len() as int;
    text::lemma_encode_concat(x, m);
    text::lemma_encode_concat(x + m, y);
    assert(s.take(i) =~= x);
    assert(s.take(j) =~= x + m);
    scalars::lemma_char_place(m, 0);
    assert(own.len() > 0);
    assert(t.subrange(a, b) =~= own);
    bytes::lemma_next_match(t, 0, own);
    assert(bytes::matches_at(t, a, own));
    let at = bytes::next_match(t, 0, own)->Some_0;
    if at < a {
        assert(lexical_laws::stands(t, at, m));
    }
    assert(at == a);
    if x.len() > 0 {
        scalars::lemma_char_place(s, i - 1);
        assert(s[i - 1] == x.last());
    } else {
        assert(x =~= Seq::empty());
        assert(encode_utf8(x) =~= Seq::<u8>::empty());
    }
    if y.len() > 0 {
        scalars::lemma_char_place(s, j);
        assert(s[j] == y[0]);
    } else {
        assert(y =~= Seq::empty());
        assert(encode_utf8(y) =~= Seq::<u8>::empty());
    }
    assert(signature_help::stands_alone(t, a, b));
}

/// An index beyond the last item stands for the last, and none for the first.
pub proof fn law_active_index(index: Option<u32>, n: int)
    requires
        n > 0,
    ensures
        ({
            let active = signature_help::clamped(index, n);
            &&& 0 <= active < n
            &&& index is None ==> active == 0
            &&& index matches Some(asked) ==> (asked < n ==> active == asked) && (asked >= n
                ==> active == n - 1)
        }),
{
}

/// Going to the next overload and back shows the one from before.
pub proof fn law_overloads_and_back(before: InputState, next: InputState, after: InputState)
    requires
        before.lsp.signature_help_popover matches Some(popover) && popover.active_index() + 1
            < popover.help.signatures@.len() <= u32::MAX,
        InputState::is_overload_step(before, next, true, true),
        InputState::is_overload_step(next, after, false, true),
    ensures
        next.lsp.signature_help_popover matches Some(shown) && shown.active_index()
            == before.lsp.signature_help_popover->Some_0.active_index() + 1,
        after.lsp.signature_help_popover matches Some(shown) && shown.active_index()
            == before.lsp.signature_help_popover->Some_0.active_index(),
{
}

proof fn lemma_text_start(a: Seq<char>, m: Seq<char>, from: int)
    requires
        forall|i: int| 0 <= i < a.len() ==> chars::is_whitespace(#[trigger] a[i]),
        m.len() == 0 || !chars::is_whitespace(m[0]),
        0 <= from <= a.len(),
    ensures
        signature_help::text_start(a + m, from) == a.len(),
    decreases a.len() - from,
{
    if from < a.len() {
        assert((a + m)[from] == a[from]);
        lemma_text_start(a, m, from + 1);
    } else if m.len() > 0 {
        assert((a + m)[from] == m[0]);
    }
}

proof fn lemma_text_end(m: Seq<char>, b: Seq<char>, n: int)
    requires
        forall|i: int| 0 <= i < b.len() ==> chars::is_whitespace(#[trigger] b[i]),
        m.len() == 0 || !chars::is_whitespace(m.last()),
        0 <= n <= b.len(),
    ensures
        signature_help::text_end(m + b, m.len() + n) == m.len(),
    decreases n,
{
    if n > 0 {
        assert((m + b)[m.len() + n - 1] == b[n - 1]);
        lemma_text_end(m, b, n - 1);
    } else if m.len() > 0 {
        assert((m + b)[m.len() - 1] == m.last());
    }
}

/// What is shown of a documentation goes without the white space around it.
pub proof fn law_trimmed_documentation(a: Seq<char>, m: Seq<char>, b: Seq<char>)
    requires
        forall|i: int|
            0 <= i < a.len() ==> join_laws::is_white(#[trigger] a[i]) && a[i] != '\u{feff}',
        forall|i: int|
            0 <= i < b.len() ==> join_laws::is_white(#[trigger] b[i]) && b[i] != '\u{feff}',
        m.len() > 0,
        !join_laws::is_white(m[0]),
        !join_laws::is_white(m.last()),
    ensures
        signature_help::trimmed(a + m + b) == m,
{
    char_u32_cast('\u{feff}', 0xfeffu32);
    assert forall|i: int| 0 <= i < a.len() implies chars::is_whitespace(#[trigger] a[i]) by {
        assert(join_laws::is_white(a[i]) && a[i] != '\u{feff}');
        if a[i] as u32 == 0xfeffu32 {
            char_u32_cast(a[i], 0xfeffu32);
        }
    }
    assert forall|i: int| 0 <= i < b.len() implies chars::is_whitespace(#[trigger] b[i]) by {
        assert(join_laws::is_white(b[i]) && b[i] != '\u{feff}');
        if b[i] as u32 == 0xfeffu32 {
            char_u32_cast(b[i], 0xfeffu32);
        }
    }
    join_laws::lemma_white(m[0]);
    join_laws::lemma_white(m.last());
    let s = a + m + b;
    assert(s =~= a + (m + b));
    assert((m + b)[0] == m[0]);
    lemma_text_start(a, m + b, 0);
    assert((a + m).last() == m.last());
    lemma_text_end(a + m, b, b.len() as int);
    assert(s.subrange(a.len() as int, (a + m).len() as int) =~= m);
}

proof fn lemma_advanced(s: Seq<char>, i: int, n: int, end: int)
    requires
        0 <= i <= end <= s.len(),
        0 <= n,
    ensures
        position::advanced(
            encode_utf8(s),
            encode_utf8(s.take(i)).len() as int,
            encode_utf8(s.take(end)).len() as int,
            n,
        ) == encode_utf8(
            s.take(
                if i + n <= end {
                    i + n
                } else {
                    end
                },
            ),
        ).len(),
    decreases n,
{
    if n > 0 && i < end {
        scalars::lemma_char_place(s, i);
        lemma_prefixes(s, i + 1, end);
        lemma_advanced(s, i + 1, n - 1, end);
    }
}

proof fn lemma_prefixes(s: Seq<char>, i: int, k: int)
    requires
        0 <= i <= k <= s.len(),
    ensures
        encode_utf8(s.take(i)).len() <= encode_utf8(s.take(k)).len(),
{
    assert(s.take(k) =~= s.take(i) + s.subrange(i, k));
    text::lemma_encode_concat(s.take(i), s.subrange(i, k));
}

/// A position counts rows by line feeds and, within its row, characters; beyond the
/// end of a row it is that end, and beyond the last row the end of the text.
#[verifier::rlimit(30)]
pub proof fn law_position_counts_characters(
    x: Seq<char>,
    row: Seq<char>,
    y: Seq<char>,
    position: Position,
)
    requires
        text_laws::ends_row(encode_utf8(x)),
        forall|i: int| 0 <= i < encode_utf8(row).len() ==> #[trigger] encode_utf8(row)[i] != 10,
        y.len() == 0 || encode_utf8(y)[0] == 10,
    ensures
        ({
            let t = encode_utf8(x + row + y);
            let kept = if position.character <= row.len() {
                row.take(position.character as int)
            } else {
                row
            };
            &&& position.line == text_laws::feeds(encode_utf8(x)) ==> position::position_offset(
                t,
                position,
            ) == encode_utf8(x + kept).len()
            &&& position.line > text_laws::feeds(t) ==> position::position_offset(t, position)
                == t.len()
        }),
{
    let s = x + row + y;
    let t = encode_utf8(s);
    let bx = encode_utf8(x);
    let br = encode_utf8(row);
    let by = encode_utf8(y);
    let p = bx.len() as int;
    let e = p + br.len();
    text::lemma_encode_concat(x + row, y);
    text::lemma_encode_concat(x, row);
    assert(t =~= bx + br + by);
    assert(t.take(p) =~= bx);
    text_laws::lemma_feeds(t, p);
    if p > 0 {
        assert(t[p - 1] == bx.last());
    }
    text_laws::lemma_start_of_row(t, p);
    assert forall|i: int| p <= i < e implies t[i] != 10 by {
        assert(t[i] == br[i - p]);
    }
    if y.len() > 0 {
        scalars::lemma_char_place(y, 0);
        assert(t[e] == by[0]);
    } else {
        assert(y =~= Seq::empty());
        assert(by =~= Seq::<u8>::empty());
    }
    text::lemma_line_end_from(t, p);
    let i = x.len() as int;
    let j = (x + row).len() as int;
    assert(s.take(i) =~= x);
    assert(s.take(j) =~= x + row);
    lemma_advanced(s, i, position.character as int, j);
    let k = if i + position.character <= j {
        i + position.character
    } else {
        j
    };
    let kept = if position.character <= row.len() {
        row.take(position.character as int)
    } else {
        row
    };
    assert(s.take(k) =~= x + kept);
    assert(t.take(t.len() as int) =~= t);
    text_laws::lemma_feeds(t, t.len() as int);
}

proof fn lemma_behind_slash(a: Seq<char>, b: Seq<char>, n: int)
    requires
        a.len() == 0 || a.last() == '/',
        forall|i: int| 0 <= i < b.len() ==> #[trigger] b[i] != '/',
        0 <= n <= b.len(),
    ensures
        diagnostics::behind_slash(a + b, a.len() + n) == a.len(),
    decreases n,
{
    if n > 0 {
        assert((a + b)[a.len() + n - 1] == b[n - 1]);
        lemma_behind_slash(a, b, n - 1);
    } else if a.len() > 0 {
        assert((a + b)[a.len() - 1] == a.last());
    }
}

/// What is shown of a place elsewhere is the last part of its address, and all of it
/// where it ends in a slash or has none.
pub proof fn law_target_name(a: Seq<char>, b: Seq<char>)
    requires
        a.len() == 0 || a.last() == '/',
        forall|i: int| 0 <= i < b.len() ==> #[trigger] b[i] != '/',
    ensures
        b.len() > 0 ==> diagnostics::target_name(a + b) == b,
        b.len() == 0 ==> diagnostics::target_name(a + b) == a + b,
{
    lemma_behind_slash(a, b, b.len() as int);
    assert((a + b).skip(a.len() as int) =~= b);
}

/// The documentation of a parameter stands before that of its signature, with an empty
/// line between them; where only one has any, it stands alone.
pub proof fn law_shown_documentation(signature: SignatureModel, index: int)
    requires
        signature.parameters is Some,
        0 <= index < (signature.parameters->Some_0).len(),
    ensures
        ({
            let own = signature_help::shown_documentation(
                (signature.parameters->Some_0)[index].documentation,
            );
            let whole = signature_help::shown_documentation(signature.documentation);
            let shown = signature_help::joined_documentation(signature, index);
            &&& own is Some && whole is Some ==> shown == Some(
                own->Some_0 + seq!['\n', '\n'] + whole->Some_0,
            )
            &&& own is Some && whole is None ==> shown == own
            &&& own is None ==> shown == whole
        }),
{
}

/// The parameter that is shown as active is that of the signature, else that of the
/// help, else the first, and the last where there are not so many.
pub proof fn law_shown_parameter(help: HelpModel, signature: SignatureModel)
    requires
        signature.parameters is Some,
        (signature.parameters->Some_0).len() > 0,
    ensures
        ({
            let count = (signature.parameters->Some_0).len();
            let shown = signature_help::shown_parameter(help, signature);
            &&& 0 <= shown < count
            &&& signature.active_parameter matches Some(own) ==> (own < count ==> shown == own) && (
            own >= count ==> shown == count - 1)
            &&& signature.active_parameter is None && help.active_parameter is Some ==> (
            help.active_parameter->Some_0 < count ==> shown == help.active_parameter->Some_0)
            &&& signature.active_parameter is None && help.active_parameter is None ==> shown == 0
        }),
{
}

/// The place of a message elsewhere is named by its file and by its line and column,
/// both counted from one.
pub proof fn law_related_place(information: DiagnosticRelatedInformation)
    ensures
        ({
            let line = chars::decimal(information.line + 1);
            let column = chars::decimal(information.character + 1);
            &&& diagnostics::related_text(information) == diagnostics::target_name(information.uri@)
                + seq![':'] + line + seq![':'] + column + seq![' ', '\u{2014}', ' ']
                + information.message@
            &&& snippet_laws::decimal(line) == information.line + 1
            &&& snippet_laws::decimal(column) == information.character + 1
        }),
{
    value_laws::law_decimal_is_read_back(information.line + 1);
    value_laws::law_decimal_is_read_back(information.character + 1);
}

} // verus!

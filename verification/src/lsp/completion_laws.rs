//! What a completion replaces and inserts.

use crate::comment_laws;
use crate::indent::TabSize;
use crate::lsp::completion_insertion;
use crate::lsp::completion_menu::CompletionMenu;
use crate::lsp::completions;
use crate::lsp::completions::{
    CompletionContext, CompletionInsertMode, CompletionItem, CompletionTextEdit,
    InsertTextMode, LineEnding,
};
use crate::lsp::linked_editing;
use crate::occurrence_laws;
use crate::scalars;
use crate::snippet;
use crate::snippet_indentation;
use crate::text;
use crate::text_laws;
use crate::value_laws;
use vstd::prelude::*;
use vstd::utf8::*;

verus! {

/// What was typed is the run of letters, digits and underscores before the cursor.
pub proof fn law_typed_word(x: Seq<char>, w: Seq<char>, y: Seq<char>)
    requires
        forall|i: int| 0 <= i < w.len() ==> occurrence_laws::is_of_word(#[trigger] w[i]),
        x.len() == 0 || !occurrence_laws::is_of_word(x.last()),
    ensures
        completions::typed_start(encode_utf8(x + w + y), encode_utf8(x + w).len() as int)
            == encode_utf8(x).len(),
{
    let s = x + w + y;
    let n = (x + w).len() as int;
    occurrence_laws::lemma_word_start(x, w, y, w.len() as int);
    linked_editing::lemma_char_boundary(s, n);
    assert(s.take(n) =~= x + w);
    text::lemma_floor_boundary(encode_utf8(s), encode_utf8(x + w).len() as int);
}

/// The indentation at a cursor is the white space at the start of its row, as far as
/// the cursor.
pub proof fn law_indentation_at_cursor(x: Seq<u8>, a: Seq<u8>, b: Seq<u8>, y: Seq<u8>)
    requires
        text_laws::ends_row(x),
        comment_laws::is_space(a),
        b.len() == 0 || comment_laws::begins_with_text(b),
        forall|i: int| 0 <= i < b.len() ==> #[trigger] b[i] != 10,
        text::is_boundary(x + a + b + y, (x.len() + a.len() + b.len()) as int),
    ensures
        completions::indentation_at(x + a + b + y, (x.len() + a.len() + b.len()) as int) == a,
{
    let t = x + a + b + y;
    let p = x.len() as int;
    let end = (x.len() + a.len() + b.len()) as int;
    assert(t.take(p) =~= x);
    if p > 0 {
        assert(t[p - 1] == x.last());
    }
    text_laws::lemma_start_of_row(t, p);
    text::lemma_floor_boundary(t, end);
    assert forall|i: int| p <= i < end implies t[i] != 10 by {
        if i < p + a.len() {
            assert(t[i] == a[i - p]);
        } else {
            assert(t[i] == b[i - p - a.len()]);
        }
    }
    text::lemma_newlines_gap(t, p, end);
    lemma_blanks(t, p, p + a.len(), end);
    assert(t.subrange(p, p + a.len()) =~= a);
}

proof fn lemma_blanks(t: Seq<u8>, from: int, to: int, end: int)
    requires
        0 <= from <= to <= end <= t.len(),
        forall|i: int| from <= i < to ==> #[trigger] t[i] == 32 || t[i] == 9,
        to == end || t[to] != 32 && t[to] != 9,
    ensures
        completions::blanks_end(t, from, end) == to,
    decreases to - from,
{
    if from < to {
        assert(t[from] == 32 || t[from] == 9);
        lemma_blanks(t, from + 1, to, end);
    }
}

/// The line ending of a document is the first that stands in it, and a line feed where
/// there is none.
pub proof fn law_document_line_ending(p: Seq<u8>, y: Seq<u8>)
    requires
        forall|i: int| 0 <= i < p.len() ==> #[trigger] p[i] != 10 && p[i] != 13,
    ensures
        completions::first_line_ending(p, 0) == LineEnding::Lf,
        completions::first_line_ending(p + seq![10u8] + y, 0) == LineEnding::Lf,
        completions::first_line_ending(p + seq![13u8, 10u8] + y, 0) == LineEnding::CrLf,
        y.len() == 0 || y[0] != 10 ==> completions::first_line_ending(p + seq![13u8] + y, 0)
            == LineEnding::Cr,
        LineEnding::Lf.text() == seq!['\n'],
        LineEnding::CrLf.text() == seq!['\r', '\n'],
        LineEnding::Cr.text() == seq!['\r'],
{
    let n = p.len() as int;
    lemma_to_ending(p, Seq::empty(), 0);
    assert(p + Seq::<u8>::empty() =~= p);
    let a = p + seq![10u8] + y;
    lemma_to_ending(p, seq![10u8] + y, 0);
    assert(a =~= p + (seq![10u8] + y));
    assert(a[n] == 10);
    let b = p + seq![13u8, 10u8] + y;
    lemma_to_ending(p, seq![13u8, 10u8] + y, 0);
    assert(b =~= p + (seq![13u8, 10u8] + y));
    assert(b[n] == 13 && b[n + 1] == 10);
    let c = p + seq![13u8] + y;
    lemma_to_ending(p, seq![13u8] + y, 0);
    assert(c =~= p + (seq![13u8] + y));
    assert(c[n] == 13);
    if y.len() > 0 {
        assert(c[n + 1] == y[0]);
    }
}

proof fn lemma_to_ending(p: Seq<u8>, rest: Seq<u8>, from: int)
    requires
        forall|i: int| 0 <= i < p.len() ==> #[trigger] p[i] != 10 && p[i] != 13,
        0 <= from <= p.len(),
    ensures
        completions::first_line_ending(p + rest, from) == completions::first_line_ending(
            p + rest,
            p.len() as int,
        ),
    decreases p.len() - from,
{
    if from < p.len() {
        assert((p + rest)[from] == p[from]);
        lemma_to_ending(p, rest, from + 1);
    }
}

/// A commit character is inserted behind a completion unless the completion ends in it
/// or it follows already; more than one character never is.
pub proof fn law_commit_character(
    x: Seq<char>,
    y: Seq<char>,
    completion: Seq<char>,
    commit: Seq<char>,
)
    ensures
        completions::inserts_commit(
            encode_utf8(x + y),
            encode_utf8(x).len() as int,
            completion,
            commit,
        ) <==> commit.len() == 1 && (completion.len() == 0 || completion.last() != commit[0]) && (
        y.len() == 0 || y[0] != commit[0]),
{
    let s = x + y;
    let n = x.len() as int;
    text::lemma_encode_concat(x, y);
    linked_editing::lemma_char_boundary(s, n);
    assert(s.take(n) =~= x);
    if y.len() > 0 {
        scalars::lemma_char_place(s, n);
        assert(s[n] == y[0]);
    } else {
        assert(y =~= Seq::empty());
        assert(encode_utf8(y) =~= Seq::<u8>::empty());
    }
}

/// An item that has a range to insert in and one to replace takes the one that was
/// asked for, as an item with that range alone would.
pub proof fn law_completed_range(
    t: Seq<u8>,
    typed: (int, int),
    item: CompletionItem,
    inserting: CompletionItem,
    replacing: CompletionItem,
    mode: CompletionInsertMode,
)
    requires
        item.text_edit matches Some(CompletionTextEdit::InsertAndReplace { insert, replace, new_text })
            && inserting.text_edit == Some(
            CompletionTextEdit::Edit { range: insert, new_text },
        ) && replacing.text_edit == Some(CompletionTextEdit::Edit { range: replace, new_text }),
    ensures
        completions::primary_edit(t, typed, item, CompletionInsertMode::Insert)
            == completions::primary_edit(t, typed, inserting, mode),
        completions::primary_edit(t, typed, item, CompletionInsertMode::Replace)
            == completions::primary_edit(t, typed, replacing, mode),
{
}

/// An item without ranges replaces what was typed, by its own text, or by its label
/// where it has none.
pub proof fn law_completed_word(
    t: Seq<u8>,
    typed: (int, int),
    item: CompletionItem,
    mode: CompletionInsertMode,
)
    requires
        item.text_edit is None,
    ensures
        ({
            let made = completions::primary_edit(t, typed, item, mode);
            &&& (made.0, made.1) == typed
            &&& item.insert_text matches Some(own) ==> made.2 == own@
            &&& item.insert_text is None ==> made.2 == item.label@
        }),
        item.filter_text is None ==> completions::filter_of(item) == item.label@,
        item.filter_text matches Some(own) ==> completions::filter_of(item) == own@,
{
}

/// Nothing that is offered is wider than the widest item.
pub proof fn law_widest_item(items: Seq<CompletionItem>, i: int)
    requires
        0 <= i < items.len(),
    ensures
        ({
            let most = completions::widest(items, items.len() as int);
            &&& 0 <= most < items.len()
            &&& completions::display_width(items[i]) <= completions::display_width(items[most])
        }),
{
    lemma_widest(items, items.len() as int, i);
}

proof fn lemma_widest(items: Seq<CompletionItem>, n: int, i: int)
    requires
        0 < n <= items.len(),
        0 <= i < n,
    ensures
        ({
            let most = completions::widest(items, n);
            &&& 0 <= most < n
            &&& completions::display_width(items[i]) <= completions::display_width(items[most])
        }),
    decreases n,
{
    if n > 1 {
        if i < n - 1 {
            lemma_widest(items, n - 1, i);
        } else {
            lemma_widest(items, n - 1, 0);
        }
    }
}

/// What was typed goes from where the completion was triggered, or from where it was
/// answered, to the cursor; behind the cursor there is none.
pub proof fn law_typed_range(start: Option<usize>, answered: usize, cursor: usize)
    ensures
        ({
            let from = if start is Some {
                start->Some_0
            } else {
                answered
            };
            &&& from <= cursor ==> completions::trigger_range(start, answered, cursor) == Some(
                (from as int, cursor as int),
            )
            &&& from > cursor ==> completions::trigger_range(start, answered, cursor) is None
        }),
{
}

/// Without a reason of the provider completions are asked for again only where an open
/// menu lost what was typed; a list that was incomplete is said to be so.
pub proof fn law_asking_again(
    context: CompletionContext,
    open: bool,
    incomplete: bool,
    typed: Seq<char>,
)
    ensures
        ({
            let again = completions::context_for_menu(None, open, incomplete, typed);
            let own = completions::context_for_menu(Some(context), open, incomplete, typed);
            &&& again is Some <==> open && typed.len() == 0
            &&& again is Some && incomplete ==> (again->Some_0).trigger_kind
                is TriggerForIncompleteCompletions
            &&& again is Some && !incomplete ==> (again->Some_0).trigger_kind is Invoked
            &&& own is Some
            &&& incomplete && context.trigger_kind is Invoked ==> (own->Some_0).trigger_kind
                is TriggerForIncompleteCompletions
            &&& !(incomplete && context.trigger_kind is Invoked) ==> own == Some(context)
        }),
{
}

/// An item of one line that is no snippet is inserted as it is; so is every item that
/// asks to stand as it is, once it is read.
#[verifier::rlimit(30)]
pub proof fn law_inserted_text(
    t: Seq<u8>,
    own: Seq<char>,
    item: CompletionItem,
    cursor: int,
    tab: TabSize,
    known: Map<Seq<char>, Seq<char>>,
)
    ensures
        ({
            let inserted = completion_insertion::inserted_text(t, own, item, cursor, tab, known);
            &&& !item.is_snippet && value_laws::is_unbroken(own) ==> inserted == own
            &&& !item.is_snippet && item.insert_text_mode == Some(InsertTextMode::AsIs) ==> inserted
                == own
            &&& item.is_snippet && item.insert_text_mode == Some(InsertTextMode::AsIs) ==> inserted
                == snippet::read_snippet_with(own, known).text
            &&& item.is_snippet && value_laws::is_unbroken(
                snippet::read_snippet_with(own, known).text,
            ) ==> inserted == snippet::read_snippet_with(own, known).text
        }),
{
    let read = if item.is_snippet {
        snippet::read_snippet_with(own, known).text
    } else {
        own
    };
    if value_laws::is_unbroken(read) {
        assert forall|i: int| 0 <= i < read.len() implies !#[trigger] snippet_indentation::is_break(
            read[i],
        ) by {
            assert(read[i] != '\n' && read[i] != '\r');
        }
        snippet_indentation::law_single_line_stays(
            read,
            decode_utf8(completions::indentation_at(t, cursor)),
            tab,
            completions::first_line_ending(t, 0),
        );
    }
}

/// A character accepts the selected item where the menu is open and the item names it.
pub proof fn law_commit_characters(menu: CompletionMenu, character: Seq<char>)
    requires
        menu.accepted_index() < menu.items@.len(),
    ensures
        menu.commits(character) <==> menu.open && character.len() == 1 && exists|i: int|
            0 <= i < menu.items@[menu.accepted_index() as int].commit_characters@.len() && (
            #[trigger] menu.items@[menu.accepted_index() as int].commit_characters@[i])@
                == character,
        menu.selected_index matches Some(index) ==> menu.accepted_index() == index,
        menu.selected_index is None ==> menu.accepted_index() == 0,
{
}

} // verus!

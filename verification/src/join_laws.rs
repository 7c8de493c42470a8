//! What joining lines comes to.

use crate::chars;
use crate::cursor::EditorSelection;
use crate::join;
use crate::text;
use crate::text_laws;
use vstd::prelude::*;
use vstd::utf8::*;

verus! {

/// White space, and the byte order mark.
pub open spec fn is_white(c: char) -> bool {
    let u = c as int;
    ||| 9 <= u <= 13
    ||| u == 32
    ||| u == 0x85
    ||| u == 0xa0
    ||| u == 0x1680
    ||| 0x2000 <= u <= 0x200a
    ||| u == 0x2028
    ||| u == 0x2029
    ||| u == 0x202f
    ||| u == 0x205f
    ||| u == 0x3000
    ||| u == 0xfeff
}

pub open spec fn all_white(s: Seq<char>) -> bool {
    forall|i: int| 0 <= i < s.len() ==> is_white(#[trigger] s[i])
}

pub proof fn lemma_white(c: char)
    ensures
        join::is_join_whitespace(c) == is_white(c),
{
    char_u32_cast('\u{feff}', 0xfeffu32);
    if c as u32 == 0xfeffu32 {
        char_u32_cast(c, 0xfeffu32);
    }
}

proof fn lemma_lead(a: Seq<char>, v: Seq<char>, from: int)
    requires
        all_white(a),
        v.len() == 0 || !is_white(v[0]),
        0 <= from <= a.len(),
    ensures
        join::lead_from(a + v, from) == a.len(),
    decreases a.len() - from,
{
    let s = a + v;
    if from < a.len() {
        assert(s[from] == a[from]);
        lemma_white(a[from]);
        lemma_lead(a, v, from + 1);
    } else if v.len() > 0 {
        assert(s[from] == v[0]);
        lemma_white(v[0]);
    }
}

proof fn lemma_trimmed(w: Seq<char>, g: Seq<char>)
    requires
        all_white(g),
        w.len() == 0 || !is_white(w.last()),
    ensures
        join::trimmed(w + g) == w,
    decreases g.len(),
{
    let s = w + g;
    if g.len() > 0 {
        assert(s.last() == g.last());
        assert(is_white(g[g.len() - 1]));
        lemma_white(g.last());
        assert(s.drop_last() =~= w + g.drop_last());
        assert forall|i: int| 0 <= i < g.drop_last().len() implies is_white(
            #[trigger] g.drop_last()[i],
        ) by {
            assert(g.drop_last()[i] == g[i]);
        }
        lemma_trimmed(w, g.drop_last());
    } else {
        assert(s =~= w);
        if w.len() > 0 {
            lemma_white(w.last());
        }
    }
}

/// Two lines are joined with one space: the white space at the start of the second
/// goes, and that at the end of the first where it ends in a space or a tab. A second
/// line without text adds nothing, and a first line without any takes no space. A caret
/// in the first line comes to stand where the two meet.
#[verifier::rlimit(30)]
pub proof fn law_joined_lines(
    t: Seq<u8>,
    row: int,
    w: Seq<char>,
    g: Seq<char>,
    a: Seq<char>,
    v: Seq<char>,
)
    requires
        join::row_chars(t, row) == w + g,
        join::row_chars(t, row + 1) == a + v,
        all_white(g),
        g.len() == 0 || g.last() == ' ' || g.last() == '\t',
        w.len() == 0 || !is_white(w.last()),
        all_white(a),
        v.len() == 0 || !is_white(v[0]),
    ensures
        ({
            let joined = join::join_state(t, row, 1);
            &&& v.len() == 0 ==> joined.text == w + g
            &&& v.len() > 0 && w.len() + g.len() == 0 ==> joined.text == v
            &&& v.len() > 0 && w.len() + g.len() > 0 ==> joined.text == w + seq![' '] + v
            &&& v.len() > 0 && g.len() > 0 ==> joined.bounds[0] == encode_utf8(w).len() + 1
            &&& v.len() == 0 || g.len() == 0 ==> joined.bounds[0] == encode_utf8(w + g).len()
        }),
{
    let u = w + g;
    let c = a + v;
    lemma_lead(a, v, 0);
    lemma_trimmed(w, g);
    let first = join::join_state(t, row, 0);
    assert(first.text == u);
    assert(c.skip(a.len() as int) =~= v);
    assert(join::join_state(t, row, 1) == join::join_step(first, c));
    assert(first.bounds.len() == 0);
    if v.len() > 0 {
        if u.len() == 0 {
            assert(u + v =~= v);
        } else {
            if g.len() > 0 {
                assert(u.last() == g.last());
            } else {
                assert(u =~= w);
                lemma_white(w.last());
                char_u32_cast(' ', 32u32);
                char_u32_cast('\t', 9u32);
                assert(w.last() != ' ' && w.last() != '\t');
            }
            assert(join::joint(u) == w.push(' '));
            assert(w.push(' ') + v =~= w + seq![' '] + v);
            chars::lemma_byte_len_push(w, ' ');
            chars::lemma_char_len(' ');
        }
    }
}

/// A caret, or a selection in one row, joins its row with the next; another selection
/// joins the rows that it touches.
#[verifier::rlimit(30)]
pub proof fn law_rows_to_join(t: Seq<u8>, selection: EditorSelection)
    requires
        selection.range.start <= selection.range.end <= t.len(),
        text::is_boundary(t, selection.range.start as int),
        text::is_boundary(t, selection.range.end as int),
    ensures
        ({
            let first = text_laws::feeds(t.take(selection.range.start as int));
            let last = text_laws::feeds(t.take(selection.range.end as int));
            let most = text_laws::feeds(t);
            join::join_rows_of(t, selection) == (
                first,
                if first < last {
                    last
                } else if first < most {
                    first + 1
                } else {
                    first
                },
            )
        }),
{
    let start = selection.range.start as int;
    let end = selection.range.end as int;
    text::lemma_floor_boundary(t, start);
    text::lemma_floor_boundary(t, end);
    text_laws::lemma_feeds(t, start);
    text_laws::lemma_feeds(t, end);
    text_laws::lemma_feeds(t, t.len() as int);
    assert(t.take(t.len() as int) =~= t);
    text::lemma_newlines_monotonic(t, start, end);
    text::lemma_newlines_monotonic(t, end, t.len() as int);
}

} // verus!

//! What the variables of a snippet hold, how its lines are indented and how its tab
//! stops are visited.

use crate::chars;
use crate::indent::TabSize;
use crate::lsp::completions::LineEnding;
use crate::scalars;
use crate::snippet_indentation as indentation;
use crate::snippet_laws;
use crate::snippet_session;
use crate::snippet_session::SnippetModel;
use crate::snippet_state;
use crate::snippet_variables as variables;
use crate::state::InputState;
use crate::text;
use crate::text_laws;
use vstd::prelude::*;
use vstd::utf8::*;

verus! {

pub open spec fn are_digits(w: Seq<char>) -> bool {
    forall|i: int| 0 <= i < w.len() ==> '0' <= #[trigger] w[i] && w[i] <= '9'
}

/// The decimal notation of a number is read as that number.
pub proof fn law_decimal_is_read_back(n: int)
    requires
        0 <= n,
    ensures
        chars::decimal(n).len() > 0,
        are_digits(chars::decimal(n)),
        snippet_laws::decimal(chars::decimal(n)) == n,
        n > 0 ==> chars::decimal(n)[0] != '0',
        n >= 10 ==> chars::decimal(n).len() > 1,
        n < 10 ==> chars::decimal(n).len() == 1,
        n < 100 ==> chars::decimal(n).len() <= 2,
    decreases n,
{
    let w = chars::decimal(n);
    if n < 10 {
        assert(w.drop_last() =~= Seq::empty());
        assert(w.last() == (n + 48) as char);
        assert(w[0] == (n + 48) as char);
        assert(snippet_laws::decimal(w.drop_last()) == 0);
    } else {
        let head = chars::decimal(n / 10);
        law_decimal_is_read_back(n / 10);
        assert(w.drop_last() =~= head);
        assert(w.last() == (n % 10 + 48) as char);
        assert(w[0] == head[0]);
        assert forall|i: int| 0 <= i < w.len() implies '0' <= #[trigger] w[i] && w[i] <= '9' by {
            if i < head.len() {
                assert(w[i] == head[i]);
            }
        }
    }
}

proof fn lemma_zeros(zeros: Seq<char>, w: Seq<char>)
    requires
        forall|i: int| 0 <= i < zeros.len() ==> #[trigger] zeros[i] == '0',
    ensures
        snippet_laws::decimal(zeros + w) == snippet_laws::decimal(w),
    decreases zeros.len() + w.len(),
{
    let s = zeros + w;
    if w.len() > 0 {
        assert(s.drop_last() =~= zeros + w.drop_last());
        assert(s.last() == w.last());
        lemma_zeros(zeros, w.drop_last());
    } else if zeros.len() > 0 {
        assert(s =~= zeros);
        assert(zeros.drop_last() + w =~= zeros.drop_last());
        assert(zeros[zeros.len() - 1] == '0');
        assert forall|i: int| 0 <= i < zeros.drop_last().len() implies #[trigger] zeros.drop_last()[i]
            == '0' by {
            assert(zeros.drop_last()[i] == zeros[i]);
        }
        lemma_zeros(zeros.drop_last(), w);
    }
}

/// Zeros in front make a number as wide as was asked, and leave what it is read as.
pub proof fn law_padded_number(w: Seq<char>, width: int)
    requires
        are_digits(w),
    ensures
        ({
            let p = variables::padded(w, width);
            &&& are_digits(p)
            &&& snippet_laws::decimal(p) == snippet_laws::decimal(w)
            &&& w.len() <= width ==> p.len() == width
            &&& w.len() >= width ==> p == w
        }),
{
    let p = variables::padded(w, width);
    if w.len() < width {
        let zeros = variables::zeros(width - w.len());
        lemma_zeros(zeros, w);
        assert forall|i: int| 0 <= i < p.len() implies '0' <= #[trigger] p[i] && p[i] <= '9' by {
            if i < zeros.len() {
                assert(p[i] == zeros[i]);
            } else {
                assert(p[i] == w[i - zeros.len()]);
            }
        }
    }
}

/// The offset of a time zone is written as a sign, hours and minutes.
#[verifier::rlimit(30)]
pub proof fn law_zone_offset(seconds: int)
    requires
        -86_400 < seconds < 86_400,
    ensures
        ({
            let z = variables::zone_offset(seconds);
            let hours = snippet_laws::decimal(z.subrange(1, 3));
            let minutes = snippet_laws::decimal(z.subrange(4, 6));
            let value = hours * 3600 + minutes * 60;
            &&& z.len() == 6
            &&& z[3] == ':'
            &&& 0 <= minutes < 60
            &&& seconds >= 0 ==> z[0] == '+' && value <= seconds < value + 60
            &&& seconds < 0 ==> z[0] == '-' && value <= -seconds < value + 60
        }),
{
    let absolute = if seconds < 0 {
        -seconds
    } else {
        seconds
    };
    let h = absolute / 3600;
    let m = (absolute % 3600) / 60;
    assert(0 <= h < 24);
    assert(0 <= m < 60);
    law_decimal_is_read_back(h);
    law_decimal_is_read_back(m);
    law_padded_number(chars::decimal(h), 2);
    law_padded_number(chars::decimal(m), 2);
    let a = variables::padded(chars::decimal(h), 2);
    let b = variables::padded(chars::decimal(m), 2);
    let z = variables::zone_offset(seconds);
    assert(z.subrange(1, 3) =~= a);
    assert(z.subrange(4, 6) =~= b);
    assert(absolute == h * 3600 + absolute % 3600);
}

proof fn lemma_last_dot(a: Seq<char>, b: Seq<char>, n: int)
    requires
        a.len() == 0 || a.last() == '.',
        forall|i: int| 0 <= i < b.len() ==> #[trigger] b[i] != '.',
        0 <= n <= b.len(),
    ensures
        variables::last_dot(a + b, a.len() + n) == if a.len() == 0 {
            None
        } else {
            Some(a.len() - 1)
        },
    decreases n,
{
    if n > 0 {
        assert((a + b)[a.len() + n - 1] == b[n - 1]);
        lemma_last_dot(a, b, n - 1);
    } else if a.len() > 0 {
        assert((a + b)[a.len() - 1] == a.last());
    }
}

/// The base of a file name is what stands before its last dot; a name without a dot,
/// or with none but the first, is its own base.
pub proof fn law_base_name(a: Seq<char>, b: Seq<char>)
    requires
        forall|i: int| 0 <= i < b.len() ==> #[trigger] b[i] != '.',
    ensures
        a.len() > 0 ==> variables::base_name(a + seq!['.'] + b) == a,
        variables::base_name(seq!['.'] + b) == seq!['.'] + b,
        variables::base_name(b) == b,
{
    let none = Seq::<char>::empty();
    let n = b.len() as int;
    lemma_last_dot(none, b, n);
    assert(none + b =~= b);
    lemma_last_dot(seq!['.'], b, n);
    lemma_last_dot(a + seq!['.'], b, n);
    assert((a + seq!['.'] + b).take(a.len() as int) =~= a);
}

proof fn lemma_end_without(s: Seq<u8>, n: int)
    requires
        0 <= n <= s.len(),
        n > 0 ==> s[n - 1] != 13,
    ensures
        variables::end_without(s, 13, n) == n,
{
}

/// The current line is what its row reads, without the line ending.
pub proof fn law_current_line(x: Seq<u8>, line: Seq<char>, y: Seq<u8>)
    requires
        text_laws::ends_row(x),
        text_laws::is_row_text(encode_utf8(line)),
        text_laws::begins_with_ending(y),
    ensures
        variables::row_text(x + encode_utf8(line) + y, text_laws::feeds(x)) == line,
{
    let own = encode_utf8(line);
    let t = x + own + y;
    text_laws::law_row(x, own, y, 0);
    let whole = text::line_bytes(t, text_laws::feeds(x));
    let n = own.len() as int;
    if n > 0 {
        assert(whole[n - 1] == own.last());
    }
    lemma_end_without(whole, n);
    if whole.len() > n {
        assert(whole[n] == 13);
        assert(variables::end_without(whole, 13, n + 1) == variables::end_without(whole, 13, n));
    }
    assert(whole.take(n) =~= own);
    encode_utf8_decode_utf8(line);
}

/// The value of a variable is cut to whole characters below the limit, and a short one
/// stays.
pub proof fn law_bounded_value(s: Seq<char>)
    ensures
        ({
            let most = 4_194_304int;
            let kept = encode_utf8(variables::truncated(s));
            let t = encode_utf8(s);
            &&& t.len() <= most ==> variables::truncated(s) == s
            &&& t.len() > most ==> kept.len() <= most && kept == t.take(kept.len() as int) && forall|
                o: int,
            |
                kept.len() < o <= most ==> !#[trigger] is_char_boundary(t, o)
        }),
{
    let most = 4_194_304int;
    let t = encode_utf8(s);
    if t.len() > most {
        encode_utf8_valid_utf8(s);
        let f = text::floor_boundary(t, most);
        text::lemma_floor_boundary(t, most);
        text::lemma_valid_subrange(t, 0, f);
        decode_utf8_encode_utf8(t.subrange(0, f));
        assert(t.subrange(0, f) =~= t.take(f));
        assert(text::floor_boundary(t, most + 1 - 1) == f);
        scalars::lemma_previous_boundary(t, most + 1);
    }
}

/// Lines break at line feeds and carriage returns, and nowhere else.
pub open spec fn is_unbroken(s: Seq<char>) -> bool {
    forall|i: int| 0 <= i < s.len() ==> #[trigger] s[i] != '\n' && s[i] != '\r'
}

proof fn lemma_piecewise(
    text: Seq<char>,
    from: int,
    to: int,
    base: Seq<char>,
    tab: TabSize,
    ending: LineEnding,
)
    requires
        0 <= from <= to <= text.len(),
        forall|i: int|
            from <= i < to ==> #[trigger] text[i] != '\n' && text[i] != '\r' && (text[i] != '\t'
                || !indentation::is_indent_place(text, i)),
    ensures
        indentation::indented_to(text, to, base, tab, ending) == indentation::indented_to(
            text,
            from,
            base,
            tab,
            ending,
        ) + text.subrange(from, to),
    decreases to - from,
{
    let so_far = indentation::indented_to(text, from, base, tab, ending);
    if from < to {
        lemma_piecewise(text, from, to - 1, base, tab, ending);
        assert(text[to - 1] != '\n');
        assert(text.subrange(from, to) =~= text.subrange(from, to - 1) + seq![text[to - 1]]);
        assert(so_far + text.subrange(from, to - 1) + seq![text[to - 1]] =~= so_far + text.subrange(
            from,
            to,
        ));
    } else {
        assert(so_far + text.subrange(from, to) =~= so_far);
    }
}

proof fn lemma_no_indent_place(text: Seq<char>, from: int, i: int)
    requires
        0 <= from < i <= text.len(),
        forall|k: int| from <= k < i ==> #[trigger] text[k] != '\n' && text[k] != '\r',
        text[from] != ' ',
        text[from] != '\t',
    ensures
        !indentation::is_indent_place(text, i),
    decreases i - from,
{
    assert(text[i - 1] != '\n' && text[i - 1] != '\r');
    if from < i - 1 {
        lemma_no_indent_place(text, from, i - 1);
    }
}

proof fn lemma_first_line(text: Seq<char>, i: int)
    requires
        0 <= i <= text.len(),
        forall|k: int| 0 <= k < i ==> #[trigger] text[k] != '\n' && text[k] != '\r',
    ensures
        !indentation::is_indent_place(text, i),
    decreases i,
{
    if i > 0 {
        assert(text[i - 1] != '\n' && text[i - 1] != '\r');
        lemma_first_line(text, i - 1);
    }
}

/// The second line of an inserted text stands below the first with the ending of the
/// document and the indentation of its row, and one level more where a tab stands at
/// its start. What stands in a line stays, tabs too.
pub proof fn law_second_line(
    a: Seq<char>,
    b: Seq<char>,
    base: Seq<char>,
    tab: TabSize,
    ending: LineEnding,
)
    requires
        is_unbroken(a),
        is_unbroken(b),
        b.len() > 0,
        b[0] != ' ',
        b[0] != '\t',
    ensures
        indentation::indented_text(a + seq!['\n'] + b, base, tab, ending) == a + ending.text() + base
            + b,
        indentation::indented_text(a + seq!['\r', '\n'] + b, base, tab, ending) == a + ending.text()
            + base + b,
        indentation::indented_text(a + seq!['\n', '\t'] + b, base, tab, ending) == a + ending.text()
            + base + indentation::level_text(tab) + b,
{
    lemma_second_line(a, seq!['\n'], b, base, tab, ending);
    lemma_second_line(a, seq!['\r', '\n'], b, base, tab, ending);
    lemma_second_line(a, seq!['\n', '\t'], b, base, tab, ending);
}

#[verifier::rlimit(30)]
proof fn lemma_second_line(
    a: Seq<char>,
    middle: Seq<char>,
    b: Seq<char>,
    base: Seq<char>,
    tab: TabSize,
    ending: LineEnding,
)
    requires
        is_unbroken(a),
        is_unbroken(b),
        b.len() > 0,
        b[0] != ' ',
        b[0] != '\t',
        middle == seq!['\n'] || middle == seq!['\r', '\n'] || middle == seq!['\n', '\t'],
    ensures
        indentation::indented_text(a + middle + b, base, tab, ending) == a + ending.text() + base
            + (if middle == seq!['\n', '\t'] {
            indentation::level_text(tab)
        } else {
            Seq::empty()
        }) + b,
{
    let text = a + middle + b;
    let n = a.len() as int;
    let e = n + middle.len();
    let len = text.len() as int;
    let none = Seq::<char>::empty();
    assert forall|i: int| 0 <= i < n implies #[trigger] text[i] != '\n' && text[i] != '\r' && (
    text[i] != '\t' || !indentation::is_indent_place(text, i)) by {
        assert forall|k: int| 0 <= k < i implies #[trigger] text[k] != '\n' && text[k] != '\r' by {
            assert(text[k] == a[k]);
        }
        assert(text[i] == a[i]);
        lemma_first_line(text, i);
    }
    lemma_piecewise(text, 0, n, base, tab, ending);
    assert(indentation::indented_to(text, 0, base, tab, ending) == none);
    assert(text.subrange(0, n) =~= a);
    assert(none + a =~= a);
    assert(text[n] == middle[0]);
    if middle.len() == 2 {
        assert(text[n + 1] == middle[1]);
    }
    let broken = a + ending.text() + base;
    let level = if middle == seq!['\n', '\t'] {
        indentation::level_text(tab)
    } else {
        none
    };
    assert(a + (ending.text() + base) =~= broken);
    if middle.len() == 1 {
        assert(text[n + 1] == b[0]);
        assert(indentation::indented_to(text, n + 1, base, tab, ending) == a + (ending.text()
            + base));
        assert(broken + level =~= broken);
    } else if middle[0] == '\r' {
        assert(indentation::indented_piece(text, n, base, tab, ending) == none);
        assert(indentation::indented_to(text, n + 1, base, tab, ending) == a + none);
        assert(a + none =~= a);
        assert(indentation::indented_to(text, n + 2, base, tab, ending) == a + (ending.text()
            + base));
        assert(broken + level =~= broken);
    } else {
        assert(indentation::indented_to(text, n + 1, base, tab, ending) == a + (ending.text()
            + base));
        assert(indentation::is_indent_place(text, n + 1));
        assert(indentation::indented_to(text, n + 2, base, tab, ending) == broken + level);
    }
    assert(indentation::indented_to(text, e, base, tab, ending) == broken + level);
    assert forall|i: int| e <= i < len implies #[trigger] text[i] != '\n' && text[i] != '\r' && (
    text[i] != '\t' || !indentation::is_indent_place(text, i)) by {
        assert(text[i] == b[i - e]);
        if i > e {
            assert forall|k: int| e <= k < i implies #[trigger] text[k] != '\n' && text[k]
                != '\r' by {
                assert(text[k] == b[k - e]);
            }
            assert(text[e] == b[0]);
            lemma_no_indent_place(text, e, i);
        }
    }
    lemma_piecewise(text, e, len, base, tab, ending);
    assert(text.subrange(e, len) =~= b);
}

proof fn lemma_inserted(ranges: Seq<(int, int)>, starts: Seq<usize>, n: int, k: int, j: int)
    requires
        0 <= k < n <= starts.len(),
        0 <= j < ranges.len(),
    ensures
        snippet_session::inserted_ranges(ranges, starts, n).len() == n * ranges.len(),
        0 <= k * ranges.len() + j < n * ranges.len(),
        snippet_session::inserted_ranges(ranges, starts, n)[k * ranges.len() + j] == (
            snippet_session::clamp(starts[k] + ranges[j].0),
            snippet_session::clamp(starts[k] + ranges[j].1),
        ),
    decreases n,
{
    let m = ranges.len() as int;
    let now = snippet_session::inserted_ranges(ranges, starts, n);
    let before = snippet_session::inserted_ranges(ranges, starts, n - 1);
    lemma_inserted_len(ranges, starts, n - 1);
    lemma_inserted_len(ranges, starts, n);
    assert(n * m == (n - 1) * m + m) by (nonlinear_arith);
    if k < n - 1 {
        lemma_inserted(ranges, starts, n - 1, k, j);
        assert(now[k * m + j] == before[k * m + j]);
    } else {
        assert(now[(n - 1) * m + j] == (
            snippet_session::clamp(starts[n - 1] + ranges[j].0),
            snippet_session::clamp(starts[n - 1] + ranges[j].1),
        ));
    }
}

proof fn lemma_inserted_len(ranges: Seq<(int, int)>, starts: Seq<usize>, n: int)
    requires
        0 <= n,
    ensures
        snippet_session::inserted_ranges(ranges, starts, n).len() == n * ranges.len(),
    decreases n,
{
    let m = ranges.len() as int;
    if n > 0 {
        lemma_inserted_len(ranges, starts, n - 1);
        assert(n * m == (n - 1) * m + m) by (nonlinear_arith);
    } else {
        assert(n * m == 0) by (nonlinear_arith)
            requires
                n == 0,
        ;
    }
}

/// A session starts at the first tab stop, and in each insertion at the first place of
/// it.
#[verifier::rlimit(30)]
pub proof fn law_session_starts(
    tabstops: Seq<(u32, Seq<(int, int)>)>,
    starts: Seq<usize>,
    k: int,
)
    requires
        tabstops.len() > 0,
        tabstops[0].1.len() > 0,
        0 <= k < starts.len(),
        0 <= tabstops[0].1[0].0 <= tabstops[0].1[0].1,
        starts[k] + tabstops[0].1[0].1 <= usize::MAX,
    ensures
        snippet_session::new_session(tabstops, starts) matches Some(session) && {
            &&& session.active == 0
            &&& session.tabstops.len() == tabstops.len()
            &&& session.tabstops[0].0 == tabstops[0].0
            &&& session.active_ranges().len() == starts.len()
            &&& session.active_ranges()[k] == (
                starts[k] + tabstops[0].1[0].0,
                starts[k] + tabstops[0].1[0].1,
            )
        },
{
    let session = snippet_session::new_session(tabstops, starts)->Some_0;
    let places = tabstops[0].1;
    let m = places.len() as int;
    let n = starts.len() as int;
    let own = session.tabstops[0].1;
    lemma_inserted(places, starts, n, k, 0);
    assert(own.len() == n * m);
    assert((n * m) / n == m) by (nonlinear_arith)
        requires
            n > 0,
    ;
    assert(n * m >= n) by (nonlinear_arith)
        requires
            n > 0,
            m > 0,
    ;
    assert(session.has_active());
    assert(session.stride() == m);
}

/// Going back to the previous tab stop after going on to the next one comes to where
/// the session was.
pub proof fn law_tab_stops_and_back(before: InputState, next: InputState, after: InputState)
    requires
        snippet_state::next_visited(before, next),
        next.snippet_session is Some,
        snippet_state::previous_visited(next, after),
        after.snippet_session is Some,
        snippet_session::optional_model(before.snippet_session) matches Some(session)
            && session.active >= 0,
    ensures
        snippet_session::optional_model(next.snippet_session) matches Some(session)
            && session.active == (snippet_session::optional_model(
            before.snippet_session,
        )->Some_0).active + 1,
        snippet_session::optional_model(after.snippet_session)
            == snippet_session::optional_model(before.snippet_session),
{
    let session = snippet_session::optional_model(before.snippet_session)->Some_0;
    let moved = SnippetModel { active: session.active + 1, ..session };
    let model = snippet_session::optional_model(next.snippet_session);
    assert(model is Some);
    if session.active + 1 >= session.tabstops.len() || moved.active_ranges().len() == 0 {
        assert(next.snippet_session is None);
    }
    assert(model == Some(moved));
    let back = SnippetModel { active: moved.active - 1, ..moved };
    assert(back == session);
}

/// A session goes on as long as an edit lies in one of its active ranges, and ends with
/// one that lies in none.
pub proof fn law_session_ends(session: SnippetModel, edit: (int, int), inserted: int, k: int)
    requires
        0 <= k < session.active_ranges().len(),
        session.active_ranges().len() <= session.instances,
    ensures
        session.active_ranges()[k].0 <= edit.0 && edit.1 <= session.active_ranges()[k].1
            ==> session.after_user_edit(edit, inserted) is Some,
        (forall|j: int|
            0 <= j < session.active_ranges().len() ==> !(
            (#[trigger] session.active_ranges()[j]).0 <= edit.0 && edit.1
                <= session.active_ranges()[j].1)) ==> session.after_user_edit(edit, inserted)
            is None,
{
    lemma_edited(session, edit, 0);
}

proof fn lemma_edited(session: SnippetModel, edit: (int, int), from: int)
    requires
        0 <= from <= session.active_ranges().len() <= session.instances,
    ensures
        match session.edited_instance(edit, from) {
            Some(k) => from <= k < session.active_ranges().len() && session.active_ranges()[k].0
                <= edit.0 && edit.1 <= session.active_ranges()[k].1,
            None => forall|j: int|
                from <= j < session.active_ranges().len() ==> !(
                (#[trigger] session.active_ranges()[j]).0 <= edit.0 && edit.1
                    <= session.active_ranges()[j].1),
        },
    decreases session.instances - from,
{
    if from < session.active_ranges().len() {
        let range = session.active_ranges()[from];
        if !(range.0 <= edit.0 && edit.1 <= range.1) {
            lemma_edited(session, edit, from + 1);
        }
    }
}

/// A range grows with an edit inside it and keeps its start.
pub proof fn law_range_around_edit(range: (int, int), edit: (int, int), inserted: int)
    requires
        0 <= range.0 < edit.0 <= edit.1 < range.1,
        0 <= inserted,
        range.1 + inserted <= usize::MAX,
    ensures
        snippet_session::followed(range, edit, inserted) == (
            range.0,
            range.1 + inserted - (edit.1 - edit.0),
        ),
        snippet_session::grown(range, edit, inserted) == (
            range.0,
            range.1 + inserted - (edit.1 - edit.0),
        ),
{
}

/// A number with a sign is written with a hyphen in front where it is negative, and
/// read back.
pub proof fn law_signed_number(n: int, width: int)
    ensures
        ({
            let s = variables::signed_padded(n, width);
            &&& n < 0 ==> s[0] == '-' && snippet_laws::decimal(s.skip(1)) == -n
            &&& n >= 0 ==> are_digits(s) && snippet_laws::decimal(s) == n
        }),
{
    if n < 0 {
        law_decimal_is_read_back(-n);
        law_padded_number(chars::decimal(-n), width - 1);
        let p = variables::padded(chars::decimal(-n), width - 1);
        assert((seq!['-'] + p).skip(1) =~= p);
    } else {
        law_decimal_is_read_back(n);
        law_padded_number(chars::decimal(n), width);
    }
}

/// The value of a hexadecimal digit.
pub open spec fn hex_value(c: char) -> int {
    if '0' <= c && c <= '9' {
        c as int - 48
    } else {
        c as int - 87
    }
}

/// The number that hexadecimal digits write.
pub open spec fn hex_number(w: Seq<char>) -> int
    decreases w.len(),
{
    if w.len() == 0 {
        0
    } else {
        16 * hex_number(w.drop_last()) + hex_value(w.last())
    }
}

/// The hexadecimal notation of a number is read as that number, and its letters are
/// small.
pub proof fn law_hexadecimal_is_read_back(n: int)
    requires
        0 <= n,
    ensures
        hex_number(variables::hexadecimal(n)) == n,
        forall|i: int|
            0 <= i < variables::hexadecimal(n).len() ==> {
                let c = #[trigger] variables::hexadecimal(n)[i];
                '0' <= c && c <= '9' || 'a' <= c && c <= 'f'
            },
    decreases n,
{
    let w = variables::hexadecimal(n);
    if n < 16 {
        assert(w.drop_last() =~= Seq::empty());
        assert(hex_number(w.drop_last()) == 0);
        assert(w.last() == variables::hex_digit(n));
    } else {
        let head = variables::hexadecimal(n / 16);
        law_hexadecimal_is_read_back(n / 16);
        assert(w.drop_last() =~= head);
        assert(w.last() == variables::hex_digit(n % 16));
        assert forall|i: int| 0 <= i < w.len() implies {
            let c = #[trigger] w[i];
            '0' <= c && c <= '9' || 'a' <= c && c <= 'f'
        } by {
            if i < head.len() {
                assert(w[i] == head[i]);
            }
        }
    }
}

/// Of the line variables the one counts from zero and the other from one; the text
/// that is selected and the clipboard are known only where they are not empty.
#[verifier::rlimit(30)]
pub proof fn law_document_variables(
    t: Seq<u8>,
    cursor: int,
    selection: Seq<char>,
    clipboard: Seq<char>,
)
    requires
        0 <= cursor <= t.len(),
        text::is_boundary(t, cursor),
    ensures
        ({
            let row = text_laws::feeds(t.take(cursor));
            let values = variables::document_values(t, cursor, selection, clipboard);
            &&& values.dom().contains("TM_LINE_INDEX"@)
            &&& values.dom().contains("TM_LINE_NUMBER"@)
            &&& values["TM_LINE_INDEX"@] == variables::truncated(chars::decimal(row))
            &&& values["TM_LINE_NUMBER"@] == variables::truncated(chars::decimal(row + 1))
            &&& values["TM_CURRENT_LINE"@] == variables::truncated(variables::row_text(t, row))
            &&& values.dom().contains("TM_SELECTED_TEXT"@) <==> selection.len() > 0
            &&& selection.len() > 0 ==> values["TM_SELECTED_TEXT"@] == variables::truncated(
                selection,
            )
            &&& values.dom().contains("CLIPBOARD"@) <==> clipboard.len() > 0
            &&& clipboard.len() > 0 ==> values["CLIPBOARD"@] == variables::truncated(clipboard)
        }),
{
    text::lemma_floor_boundary(t, cursor);
    text_laws::lemma_feeds(t, cursor);
    reveal_strlit("SELECTION");
    reveal_strlit("TM_SELECTED_TEXT");
    reveal_strlit("CLIPBOARD");
    reveal_strlit("TM_CURRENT_LINE");
    reveal_strlit("TM_CURRENT_WORD");
    reveal_strlit("TM_LINE_INDEX");
    reveal_strlit("TM_LINE_NUMBER");
    reveal_strlit("CURSOR_INDEX");
    reveal_strlit("CURSOR_NUMBER");
    assert("SELECTION"@[0] == 'S' && "CLIPBOARD"@[0] == 'C');
    assert("TM_CURRENT_LINE"@[11] == 'L' && "TM_CURRENT_WORD"@[11] == 'W');
    assert("TM_LINE_INDEX"@.len() == 13 && "TM_LINE_NUMBER"@.len() == 14);
    assert("TM_LINE_INDEX"@[0] == 'T' && "CURSOR_NUMBER"@[0] == 'C');
    assert("TM_SELECTED_TEXT"@.len() == 16 && "TM_CURRENT_LINE"@.len() == 15);
    assert("CURSOR_INDEX"@.len() == 12 && "CURSOR_NUMBER"@.len() == 13);
    assert("SELECTION"@.len() == 9 && "CLIPBOARD"@.len() == 9);
}

} // verus!

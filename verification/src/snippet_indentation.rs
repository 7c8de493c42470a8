//! Fitting the lines of an inserted text to the row where it goes.

use crate::chars;
use crate::indent::TabSize;
use crate::lsp::completions::LineEnding;
use crate::snippet;
use crate::snippet::{ParsedSnippet, SnippetTabstop};
use crate::text;
use std::ops::Range;
use vstd::prelude::*;
use vstd::string::*;
use vstd::utf8::*;

verus! {

pub open spec fn is_break(c: char) -> bool {
    c == '\n' || c == '\r'
}

/// Whether only blanks and tabs stand between the last line break before `i` and
/// `i`.
pub open spec fn is_indent_place(text: Seq<char>, i: int) -> bool
    decreases i,
{
    0 < i <= text.len() && (is_break(text[i - 1]) || ((text[i - 1] == ' ' || text[i - 1] == '\t')
        && is_indent_place(text, i - 1)))
}

/// One level of indentation.
pub open spec fn level_text(tab: TabSize) -> Seq<char> {
    if tab.hard_tabs {
        seq!['\t']
    } else {
        Seq::new(tab.tab_size as nat, |i: int| ' ')
    }
}

/// What stands for the character at `i`: for a line break, be it `\n`, `\r\n` or
/// `\r`, the ending and the base, for a tab that indents a later line one level,
/// and for any other character itself.
pub open spec fn indented_piece(
    text: Seq<char>,
    i: int,
    base: Seq<char>,
    tab: TabSize,
    ending: LineEnding,
) -> Seq<char> {
    if text[i] == '\r' && i + 1 < text.len() && text[i + 1] == '\n' {
        Seq::empty()
    } else if is_break(text[i]) {
        ending.text() + base
    } else if text[i] == '\t' && is_indent_place(text, i) {
        level_text(tab)
    } else {
        seq![text[i]]
    }
}

/// What stands for the first `n` characters.
pub open spec fn indented_to(
    text: Seq<char>,
    n: int,
    base: Seq<char>,
    tab: TabSize,
    ending: LineEnding,
) -> Seq<char>
    decreases n,
{
    if n <= 0 {
        Seq::empty()
    } else {
        indented_to(text, n - 1, base, tab, ending) + indented_piece(
            text,
            n - 1,
            base,
            tab,
            ending,
        )
    }
}

/// The text with its later lines indented by the base, and further by levels.
pub open spec fn indented_text(
    text: Seq<char>,
    base: Seq<char>,
    tab: TabSize,
    ending: LineEnding,
) -> Seq<char> {
    indented_to(text, text.len() as int, base, tab, ending)
}

/// How many of the first `n` characters end at or before the byte offset.
pub open spec fn chars_before(text: Seq<char>, o: int, n: int) -> int
    decreases n,
{
    if n <= 0 {
        0
    } else if chars::byte_len(text.take(n)) <= o {
        n
    } else {
        chars_before(text, o, n - 1)
    }
}

/// Where a byte offset comes to lie when the lines are indented.
pub open spec fn indented_offset(
    text: Seq<char>,
    o: int,
    base: Seq<char>,
    tab: TabSize,
    ending: LineEnding,
) -> int {
    chars::byte_len(
        indented_to(text, chars_before(text, o, text.len() as int), base, tab, ending),
    )
}

/// Where ranges come to lie when the lines are indented.
pub open spec fn indented_ranges(
    text: Seq<char>,
    ranges: Seq<(int, int)>,
    base: Seq<char>,
    tab: TabSize,
    ending: LineEnding,
) -> Seq<(int, int)> {
    Seq::new(
        ranges.len(),
        |i: int|
            (
                indented_offset(text, ranges[i].0, base, tab, ending),
                indented_offset(text, ranges[i].1, base, tab, ending),
            ),
    )
}

/// Where tab stops come to lie when the lines are indented.
pub open spec fn indented_tabstops(
    text: Seq<char>,
    tabstops: Seq<(u32, Seq<(int, int)>)>,
    base: Seq<char>,
    tab: TabSize,
    ending: LineEnding,
) -> Seq<(u32, Seq<(int, int)>)> {
    Seq::new(
        tabstops.len(),
        |i: int| (tabstops[i].0, indented_ranges(text, tabstops[i].1, base, tab, ending)),
    )
}

fn level_string(tab: TabSize) -> (level: String)
    ensures
        level@ == level_text(tab),
{
    let mut level = String::new();
    if tab.hard_tabs {
        chars::push_char(&mut level, '\t');
        assert(level@ =~= level_text(tab));
        return level;
    }
    let mut i: usize = 0;
    while i < tab.tab_size
        invariant
            i <= tab.tab_size,
            level@ =~= Seq::new(i as nat, |k: int| ' '),
        decreases tab.tab_size - i,
    {
        chars::push_char(&mut level, ' ');
        i = i + 1;
    }
    level
}

/// The indented text, and for each number of characters how long they are in
/// bytes, before and after.
fn indent_marks(text: &str, base: &str, tab: TabSize, ending: LineEnding) -> (marks: (
    String,
    Vec<usize>,
    Vec<usize>,
))
    ensures
        marks.0@ == indented_text(text@, base@, tab, ending),
        marks.1@.len() == text@.len() + 1,
        marks.2@.len() == text@.len() + 1,
        forall|k: int|
            0 <= k <= text@.len() ==> #[trigger] marks.1@[k] == chars::byte_len(text@.take(k)),
        forall|k: int|
            0 <= k <= text@.len() ==> #[trigger] marks.2@[k] == chars::byte_len(
                indented_to(text@, k, base@, tab, ending),
            ),
{
    let source = chars::chars_of(text);
    let level = level_string(tab);
    let mut copy = String::new();
    let mut adjusted = String::new();
    let mut before: Vec<usize> = Vec::new();
    let mut after: Vec<usize> = Vec::new();
    before.push(0);
    after.push(0);
    let mut indents = false;
    let mut i: usize = 0;
    proof {
        chars::lemma_byte_len_empty();
        assert(text@.take(0) =~= Seq::<char>::empty());
    }
    while i < source.len()
        invariant
            source@ == text@,
            level@ == level_text(tab),
            i <= source@.len(),
            indents == is_indent_place(text@, i as int),
            copy@ == text@.take(i as int),
            adjusted@ == indented_to(text@, i as int, base@, tab, ending),
            before@.len() == i + 1,
            after@.len() == i + 1,
            forall|k: int|
                0 <= k <= i ==> #[trigger] before@[k] == chars::byte_len(text@.take(k)),
            forall|k: int|
                0 <= k <= i ==> #[trigger] after@[k] == chars::byte_len(
                    indented_to(text@, k, base@, tab, ending),
                ),
        decreases source.len() - i,
    {
        let c = source[i];
        let ghost so_far = adjusted@;
        if c == '\r' && i + 1 < source.len() && source[i + 1] == '\n' {
            assert(adjusted@ =~= so_far + Seq::<char>::empty());
        } else if c == '\n' || c == '\r' {
            text::push_text(&mut adjusted, ending.as_str());
            text::push_text(&mut adjusted, base);
            assert(adjusted@ =~= so_far + (ending.text() + base@));
        } else if c == '\t' && indents {
            text::push_text(&mut adjusted, level.as_str());
        } else {
            chars::push_char(&mut adjusted, c);
            assert(adjusted@ =~= so_far + seq![c]);
        }
        chars::push_char(&mut copy, c);
        assert(copy@ =~= text@.take(i + 1));
        indents = c == '\n' || c == '\r' || (indents && (c == ' ' || c == '\t'));
        before.push(copy.as_str().as_bytes().len());
        after.push(adjusted.as_str().as_bytes().len());
        i = i + 1;
    }
    (adjusted, before, after)
}

/// The text with its later lines fitted to the row where it goes: each line break
/// becomes the ending and the base, each tab that indents a later line one level.
/// The first line and the blanks of the others stay.
pub fn adjust_text_indentation(text: &str, base: &str, tab: TabSize, ending: LineEnding) -> (adjusted:
    String)
    ensures
        adjusted@ == indented_text(text@, base@, tab, ending),
{
    indent_marks(text, base, tab, ending).0
}

fn find_offset(before: &Vec<usize>, after: &Vec<usize>, o: usize, Ghost(text): Ghost<Seq<char>>) -> (at:
    usize)
    requires
        before@.len() == text.len() + 1,
        after@.len() == text.len() + 1,
        forall|k: int| 0 <= k <= text.len() ==> #[trigger] before@[k] == chars::byte_len(text.take(k)),
    ensures
        at == after@[chars_before(text, o as int, text.len() as int)],
        0 <= chars_before(text, o as int, text.len() as int) <= text.len(),
{
    let mut n: usize = before.len() - 1;
    while n > 0 && before[n] > o
        invariant
            n <= text.len(),
            before@.len() == text.len() + 1,
            forall|k: int|
                0 <= k <= text.len() ==> #[trigger] before@[k] == chars::byte_len(text.take(k)),
            chars_before(text, o as int, text.len() as int) == chars_before(
                text,
                o as int,
                n as int,
            ),
        decreases n,
    {
        n = n - 1;
    }
    after[n]
}

impl ParsedSnippet {
    /// Fits the lines of the snippet to the row where it goes. Its tab stops stay
    /// with the characters around them.
    pub fn adjust_indentation(&mut self, base: &str, tab: TabSize, ending: LineEnding)
        ensures
            final(self).text@ == indented_text(old(self).text@, base@, tab, ending),
            snippet::tabstops_view(final(self).tabstops@) == indented_tabstops(
                old(self).text@,
                snippet::tabstops_view(old(self).tabstops@),
                base@,
                tab,
                ending,
            ),
    {
        let ghost text = self.text@;
        let ghost tv = snippet::tabstops_view(self.tabstops@);
        let (adjusted, before, after) = indent_marks(self.text.as_str(), base, tab, ending);
        let mut tabstops: Vec<SnippetTabstop> = Vec::new();
        let mut i: usize = 0;
        while i < self.tabstops.len()
            invariant
                *self == *old(self),
                text == self.text@,
                tv == snippet::tabstops_view(self.tabstops@),
                i <= self.tabstops@.len(),
                before@.len() == text.len() + 1,
                after@.len() == text.len() + 1,
                forall|k: int|
                    0 <= k <= text.len() ==> #[trigger] before@[k] == chars::byte_len(text.take(k)),
                forall|k: int|
                    0 <= k <= text.len() ==> #[trigger] after@[k] == chars::byte_len(
                        indented_to(text, k, base@, tab, ending),
                    ),
                snippet::tabstops_view(tabstops@) =~= indented_tabstops(
                    text,
                    tv,
                    base@,
                    tab,
                    ending,
                ).take(i as int),
            decreases self.tabstops.len() - i,
        {
            let places = &self.tabstops[i].ranges;
            let ghost pv = text::ranges_view(places@);
            let mut ranges: Vec<Range<usize>> = Vec::new();
            let mut j: usize = 0;
            while j < places.len()
                invariant
                    pv == text::ranges_view(places@),
                    j <= places@.len(),
                    before@.len() == text.len() + 1,
                    after@.len() == text.len() + 1,
                    forall|k: int|
                        0 <= k <= text.len() ==> #[trigger] before@[k] == chars::byte_len(
                            text.take(k),
                        ),
                    forall|k: int|
                        0 <= k <= text.len() ==> #[trigger] after@[k] == chars::byte_len(
                            indented_to(text, k, base@, tab, ending),
                        ),
                    text::ranges_view(ranges@) =~= indented_ranges(
                        text,
                        pv,
                        base@,
                        tab,
                        ending,
                    ).take(j as int),
                decreases places.len() - j,
            {
                let ghost held = ranges@;
                let start: usize = find_offset(&before, &after, places[j].start, Ghost(text));
                let end: usize = find_offset(&before, &after, places[j].end, Ghost(text));
                ranges.push(start..end);
                assert(pv[j as int] == (places@[j as int].start as int, places@[j as int].end as int));
                assert(text::ranges_view(ranges@) =~= text::ranges_view(held).push(
                    (start as int, end as int),
                ));
                j = j + 1;
            }
            let ghost held = tabstops@;
            let moved = SnippetTabstop { index: self.tabstops[i].index, ranges };
            let ghost model = (moved.index, text::ranges_view(moved.ranges@));
            assert(tv[i as int] == (self.tabstops@[i as int].index, pv));
            assert(model.1 =~= indented_ranges(text, pv, base@, tab, ending));
            tabstops.push(moved);
            assert(snippet::tabstops_view(tabstops@) =~= snippet::tabstops_view(held).push(model));
            i = i + 1;
        }
        self.text = adjusted;
        self.tabstops = tabstops;
        assert(snippet::tabstops_view(self.tabstops@) =~= indented_tabstops(
            text,
            tv,
            base@,
            tab,
            ending,
        ));
    }
}

/// A text of one line stays as it is.
pub proof fn law_single_line_stays(
    text: Seq<char>,
    base: Seq<char>,
    tab: TabSize,
    ending: LineEnding,
)
    requires
        forall|i: int| 0 <= i < text.len() ==> !#[trigger] is_break(text[i]),
    ensures
        indented_text(text, base, tab, ending) == text,
{
    lemma_single_line(text, text.len() as int, base, tab, ending);
    assert(text.take(text.len() as int) =~= text);
}

proof fn lemma_single_line(
    text: Seq<char>,
    n: int,
    base: Seq<char>,
    tab: TabSize,
    ending: LineEnding,
)
    requires
        0 <= n <= text.len(),
        forall|i: int| 0 <= i < text.len() ==> !#[trigger] is_break(text[i]),
    ensures
        indented_to(text, n, base, tab, ending) == text.take(n),
        !is_indent_place(text, n),
    decreases n,
{
    if n > 0 {
        lemma_single_line(text, n - 1, base, tab, ending);
        assert(!is_break(text[n - 1]));
        assert(text.take(n) =~= text.take(n - 1) + seq![text[n - 1]]);
    } else {
        assert(text.take(0) =~= Seq::<char>::empty());
    }
}

proof fn lemma_indented_prefix(
    text: Seq<char>,
    a: int,
    b: int,
    base: Seq<char>,
    tab: TabSize,
    ending: LineEnding,
)
    requires
        0 <= a <= b,
    ensures
        indented_to(text, a, base, tab, ending).is_prefix_of(
            indented_to(text, b, base, tab, ending),
        ),
    decreases b - a,
{
    if a < b {
        lemma_indented_prefix(text, a, b - 1, base, tab, ending);
        let before = indented_to(text, b - 1, base, tab, ending);
        let after = indented_to(text, b, base, tab, ending);
        assert(after.take(before.len() as int) =~= before);
        let first = indented_to(text, a, base, tab, ending);
        assert(first =~= after.take(first.len() as int));
    }
}

proof fn lemma_chars_before(text: Seq<char>, a: int, b: int, n: int)
    requires
        0 <= n <= text.len(),
        a <= b,
    ensures
        0 <= chars_before(text, a, n) <= chars_before(text, b, n) <= n,
    decreases n,
{
    if n > 0 {
        lemma_chars_before(text, a, b, n - 1);
    }
}

/// Ranges of the text stay ranges of the indented text, on boundaries.
pub proof fn law_indented_ranges_lie_in_the_text(
    text: Seq<char>,
    start: int,
    end: int,
    base: Seq<char>,
    tab: TabSize,
    ending: LineEnding,
)
    requires
        start <= end,
    ensures
        ({
            let t = encode_utf8(indented_text(text, base, tab, ending));
            let a = indented_offset(text, start, base, tab, ending);
            let b = indented_offset(text, end, base, tab, ending);
            &&& 0 <= a <= b <= t.len()
            &&& text::is_boundary(t, a)
            &&& text::is_boundary(t, b)
        }),
{
    let n = text.len() as int;
    lemma_chars_before(text, start, end, n);
    let i = chars_before(text, start, n);
    let j = chars_before(text, end, n);
    let whole = indented_text(text, base, tab, ending);
    let first = indented_to(text, i, base, tab, ending);
    let second = indented_to(text, j, base, tab, ending);
    lemma_indented_prefix(text, i, j, base, tab, ending);
    lemma_indented_prefix(text, i, n, base, tab, ending);
    lemma_indented_prefix(text, j, n, base, tab, ending);
    snippet::lemma_place_behind(first, second);
    snippet::lemma_place_is_boundary(second, chars::byte_len(first));
    snippet::lemma_place_behind(first, whole);
    snippet::lemma_place_behind(second, whole);
    snippet::lemma_place_is_boundary(whole, chars::byte_len(first));
    snippet::lemma_place_is_boundary(whole, chars::byte_len(second));
}

} // verus!

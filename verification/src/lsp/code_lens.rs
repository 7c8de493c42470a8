//! Code lenses: commands that are shown above lines.

use crate::chars;
use crate::lsp::items;
use crate::lsp::position::{check_position_le, position_le, TextRange};
use crate::lsp::{bump, next_generation, Lsp};
use crate::order;
use crate::snippet_variables::optional_view;
use crate::state::InputState;
use crate::text;
use crate::text::Document;
use std::ops::Range;
use vstd::prelude::*;

verus! {

pub const MAX_CODE_LENSES: usize = 1_000;

pub const MAX_CODE_LENS_TITLE_CHARS: usize = 120;

/// A command of a server. What it is called with is kept as the server wrote it.
#[derive(Debug, Clone, PartialEq, Eq)]
pub struct Command {
    pub title: String,
    pub command: String,
    pub arguments: Option<String>,
}

/// A command for a part of the text, with what the server keeps with it.
#[derive(Debug, Clone, PartialEq, Eq)]
pub struct CodeLens {
    pub range: TextRange,
    pub command: Option<Command>,
    pub data: Option<String>,
}

/// A lens as it is shown.
#[derive(Debug, Clone, PartialEq, Eq)]
pub struct DisplayCodeLens {
    /// Zero-based buffer line containing the lens.
    pub line: usize,
    /// Stable index among all lenses on the same line.
    pub index: usize,
    /// Bounded user-facing command title. `None` means resolution is pending.
    pub title: Option<String>,
    /// The underlying lens used for activation.
    pub lens: CodeLens,
}

/// A lens as it is shown, as plain values.
pub struct DisplayLensModel {
    pub line: int,
    pub index: int,
    pub title: Option<Seq<char>>,
    pub lens: CodeLens,
}

impl View for DisplayCodeLens {
    type V = DisplayLensModel;

    open spec fn view(&self) -> DisplayLensModel {
        DisplayLensModel {
            line: self.line as int,
            index: self.index as int,
            title: optional_view(self.title),
            lens: self.lens,
        }
    }
}

/// A request to resolve one lens.
#[derive(Debug, Clone, PartialEq, Eq)]
pub struct CodeLensResolution {
    pub generation: u64,
    pub index: usize,
    pub lens: CodeLens,
}

pub open spec fn same_command(a: Option<Command>, b: Option<Command>) -> bool {
    match (a, b) {
        (Some(a), Some(b)) => a.title@ == b.title@ && a.command@ == b.command@ && optional_view(
            a.arguments,
        ) == optional_view(b.arguments),
        (None, None) => true,
        _ => false,
    }
}

/// The two lenses say the same.
pub open spec fn same_lens(a: CodeLens, b: CodeLens) -> bool {
    a.range == b.range && same_command(a.command, b.command) && optional_view(a.data)
        == optional_view(b.data)
}

pub fn same_optional(a: &Option<String>, b: &Option<String>) -> (same: bool)
    ensures
        same == (optional_view(*a) == optional_view(*b)),
{
    match (a, b) {
        (Some(a), Some(b)) => chars::same_text(a.as_str(), b.as_str()),
        (None, None) => true,
        _ => false,
    }
}

fn check_same_command(a: &Option<Command>, b: &Option<Command>) -> (same: bool)
    ensures
        same == same_command(*a, *b),
{
    match (a, b) {
        (Some(a), Some(b)) => chars::same_text(a.title.as_str(), b.title.as_str())
            && chars::same_text(a.command.as_str(), b.command.as_str()) && same_optional(
            &a.arguments,
            &b.arguments,
        ),
        (None, None) => true,
        _ => false,
    }
}

fn check_same_lens(a: &CodeLens, b: &CodeLens) -> (same: bool)
    ensures
        same == same_lens(*a, *b),
{
    a.range == b.range && check_same_command(&a.command, &b.command) && same_optional(
        &a.data,
        &b.data,
    )
}

pub fn copy_optional(s: &Option<String>) -> (result: Option<String>)
    ensures
        result == *s,
{
    match s {
        Some(s) => Some(s.clone()),
        None => None,
    }
}

fn copy_lens(lens: &CodeLens) -> (result: CodeLens)
    ensures
        result == *lens,
{
    let command = match &lens.command {
        Some(command) => Some(
            Command {
                title: command.title.clone(),
                command: command.command.clone(),
                arguments: copy_optional(&command.arguments),
            },
        ),
        None => None,
    };
    CodeLens { range: lens.range, command, data: copy_optional(&lens.data) }
}

/// The lens lies in the text.
pub open spec fn is_valid_lens(t: Seq<u8>, lens: CodeLens) -> bool {
    lens.range.start.line < text::line_count(t) && lens.range.end.line < text::line_count(t)
        && position_le(lens.range.start, lens.range.end)
}

pub fn valid_lens(document: &Document, lens: &CodeLens) -> (valid: bool)
    requires
        document.wf(),
    ensures
        valid == is_valid_lens(document.bytes(), *lens),
{
    let count: usize = document.lines_len();
    (lens.range.start.line as usize) < count && (lens.range.end.line as usize) < count
        && check_position_le(lens.range.start, lens.range.end)
}

pub open spec fn lens_ranges(lenses: Seq<CodeLens>) -> Seq<TextRange> {
    Seq::new(lenses.len(), |i: int| lenses[i].range)
}

pub open spec fn lens_flags(t: Seq<u8>, lenses: Seq<CodeLens>) -> Seq<bool> {
    Seq::new(lenses.len(), |i: int| is_valid_lens(t, lenses[i]))
}

/// The lenses that lie in the text, in the order of their ranges.
pub open spec fn normal_lenses(t: Seq<u8>, lenses: Seq<CodeLens>) -> Seq<CodeLens> {
    items::picked(
        lenses,
        items::ordered_choice(lens_ranges(lenses), lens_flags(t, lenses), MAX_CODE_LENSES as int),
    )
}

/// The lenses that lie in the text, in the order of their ranges.
pub fn normalize_code_lenses(document: &Document, lenses: Vec<CodeLens>) -> (normal: Vec<CodeLens>)
    requires
        document.wf(),
    ensures
        normal@ == normal_lenses(document.bytes(), lenses@),
{
    let ghost t = document.bytes();
    let mut ranges: Vec<TextRange> = Vec::new();
    let mut flags: Vec<bool> = Vec::new();
    let mut i: usize = 0;
    while i < lenses.len()
        invariant
            i <= lenses@.len(),
            document.wf(),
            t == document.bytes(),
            ranges@ =~= lens_ranges(lenses@).take(i as int),
            flags@ =~= lens_flags(t, lenses@).take(i as int),
        decreases lenses.len() - i,
    {
        ranges.push(lenses[i].range);
        flags.push(valid_lens(document, &lenses[i]));
        i = i + 1;
    }
    assert(ranges@ =~= lens_ranges(lenses@));
    assert(flags@ =~= lens_flags(t, lenses@));
    let chosen = items::choose_ordered(&ranges, &flags, MAX_CODE_LENSES);
    proof {
        items::lemma_ordered_choice(ranges@, flags@, MAX_CODE_LENSES as int);
    }
    items::pick(lenses, &chosen)
}

/// Normal lenses lie in the text, in the order of their ranges, and are not
/// more than the limit.
pub proof fn law_normal_lenses(t: Seq<u8>, lenses: Seq<CodeLens>)
    ensures
        normal_lenses(t, lenses).len() <= MAX_CODE_LENSES,
        forall|i: int|
            #![trigger normal_lenses(t, lenses)[i]]
            0 <= i < normal_lenses(t, lenses).len() ==> is_valid_lens(
                t,
                normal_lenses(t, lenses)[i],
            ) && lenses.contains(normal_lenses(t, lenses)[i]),
        forall|i: int, j: int|
            #![trigger normal_lenses(t, lenses)[i], normal_lenses(t, lenses)[j]]
            0 <= i < j < normal_lenses(t, lenses).len() ==> items::range_le(
                normal_lenses(t, lenses)[i].range,
                normal_lenses(t, lenses)[j].range,
            ),
{
    let ranges = lens_ranges(lenses);
    let flags = lens_flags(t, lenses);
    let chosen = items::ordered_choice(ranges, flags, MAX_CODE_LENSES as int);
    let normal = normal_lenses(t, lenses);
    items::lemma_ordered_choice(ranges, flags, MAX_CODE_LENSES as int);
    assert forall|i: int| #![trigger normal[i]] 0 <= i < normal.len() implies is_valid_lens(
        t,
        normal[i],
    ) && lenses.contains(normal[i]) by {
        assert(0 <= chosen[i] < lenses.len());
        assert(flags[chosen[i]]);
        assert(normal[i] == lenses[chosen[i]]);
    }
    assert forall|i: int, j: int|
        #![trigger normal[i], normal[j]]
        0 <= i < j < normal.len() implies items::range_le(normal[i].range, normal[j].range) by {
        assert(normal[i] == lenses[chosen[i]]);
        assert(normal[j] == lenses[chosen[j]]);
        assert(items::range_le(ranges[chosen[i]], ranges[chosen[j]]));
    }
}

/// The lines on which the first `n` lenses start, each once, ascending.
pub open spec fn lens_lines(lenses: Seq<CodeLens>, n: int) -> Seq<int>
    decreases n,
{
    if n <= 0 {
        Seq::empty()
    } else {
        order::with_key(lens_lines(lenses, n - 1), lenses[n - 1].range.start.line as int)
    }
}

/// The lines on which lenses start, each once, ascending.
pub fn unique_lens_lines(lenses: &Vec<CodeLens>) -> (lines: Vec<usize>)
    ensures
        order::indices_view(lines@) == lens_lines(lenses@, lenses@.len() as int),
        order::is_ascending(order::indices_view(lines@)),
{
    let mut lines: Vec<usize> = Vec::new();
    let mut i: usize = 0;
    assert(order::indices_view(lines@) =~= lens_lines(lenses@, 0));
    while i < lenses.len()
        invariant
            i <= lenses@.len(),
            order::indices_view(lines@) == lens_lines(lenses@, i as int),
            order::is_ascending(order::indices_view(lines@)),
        decreases lenses.len() - i,
    {
        proof {
            order::lemma_with_key(
                order::indices_view(lines@),
                lenses@[i as int].range.start.line as int,
            );
        }
        order::insert_key(&mut lines, lenses[i].range.start.line as usize);
        i = i + 1;
    }
    lines
}

/// The number of lines before the first that is not above `anchor`.
pub open spec fn lines_above(lines: Seq<usize>, anchor: int, from: int) -> int
    decreases lines.len() - from,
{
    if from >= lines.len() || lines[from] >= anchor {
        from
    } else {
        lines_above(lines, anchor, from + 1)
    }
}

fn count_lines_above(lines: &Vec<usize>, anchor: usize) -> (count: usize)
    ensures
        count == lines_above(lines@, anchor as int, 0),
{
    let mut i: usize = 0;
    while i < lines.len() && lines[i] < anchor
        invariant
            i <= lines@.len(),
            lines_above(lines@, anchor as int, 0) == lines_above(lines@, anchor as int, i as int),
        decreases lines.len() - i,
    {
        i = i + 1;
    }
    i
}

/// By how many rows of lenses the text at `anchor` moves down when the lines
/// with lenses change.
pub fn code_lens_scroll_delta(
    old_lines: &Vec<usize>,
    new_lines: &Vec<usize>,
    anchor_line: usize,
) -> (rows: i128)
    ensures
        rows == lines_above(new_lines@, anchor_line as int, 0) - lines_above(
            old_lines@,
            anchor_line as int,
            0,
        ),
{
    let old_count: usize = count_lines_above(old_lines, anchor_line);
    let new_count: usize = count_lines_above(new_lines, anchor_line);
    new_count as i128 - old_count as i128
}

pub open spec fn bounded_title(lens: CodeLens) -> Option<Seq<char>> {
    match lens.command {
        Some(command) => Some(
            chars::ellipsized(command.title@, MAX_CODE_LENS_TITLE_CHARS as int),
        ),
        None => None,
    }
}

/// The ones of the first `n` lenses that start on the line, as they are shown.
pub open spec fn lenses_on_line(lenses: Seq<CodeLens>, line: int, n: int) -> Seq<DisplayLensModel>
    decreases n,
{
    if n <= 0 {
        Seq::empty()
    } else {
        let before = lenses_on_line(lenses, line, n - 1);
        if lenses[n - 1].range.start.line == line {
            before.push(
                DisplayLensModel {
                    line,
                    index: before.len() as int,
                    title: bounded_title(lenses[n - 1]),
                    lens: lenses[n - 1],
                },
            )
        } else {
            before
        }
    }
}

/// The lenses of the first `n` lines, as they are shown.
pub open spec fn lenses_on_lines(lenses: Seq<CodeLens>, lines: Seq<int>, n: int) -> Seq<
    DisplayLensModel,
>
    decreases n,
{
    if n <= 0 {
        Seq::empty()
    } else {
        lenses_on_lines(lenses, lines, n - 1) + lenses_on_line(
            lenses,
            lines[n - 1],
            lenses.len() as int,
        )
    }
}

pub open spec fn displays_view(lenses: Seq<DisplayCodeLens>) -> Seq<DisplayLensModel> {
    Seq::new(lenses.len(), |i: int| lenses[i]@)
}

/// The first lens from `from` on that is shown in the rows and can be resolved.
pub open spec fn unresolved_lens(
    lenses: Seq<CodeLens>,
    attempted: Seq<bool>,
    rows: Range<usize>,
    from: int,
) -> Option<int>
    decreases lenses.len() - from,
{
    if from >= lenses.len() {
        None
    } else if rows.start <= lenses[from].range.start.line < rows.end && lenses[from].command is None
        && from < attempted.len() && !attempted[from] {
        Some(from)
    } else {
        unresolved_lens(lenses, attempted, rows, from + 1)
    }
}

/// The `index`-th of the lenses from `from` on that start on the line.
pub open spec fn nth_on_line(lenses: Seq<CodeLens>, line: int, index: int, from: int) -> Option<int>
    decreases lenses.len() - from,
{
    if from >= lenses.len() {
        None
    } else if lenses[from].range.start.line == line {
        if index <= 0 {
            Some(from)
        } else {
            nth_on_line(lenses, line, index - 1, from + 1)
        }
    } else {
        nth_on_line(lenses, line, index, from + 1)
    }
}

/// No lenses, and a generation that no request has.
pub open spec fn without_lenses(before: Lsp, after: Lsp) -> bool {
    &&& after == (Lsp {
        code_lens_generation: next_generation(before.code_lens_generation),
        code_lens_requested_generation: None,
        code_lenses: after.code_lenses,
        code_lens_resolve_attempted: after.code_lens_resolve_attempted,
        ..before
    })
    &&& after.code_lenses@.len() == 0
    &&& after.code_lens_resolve_attempted@.len() == 0
}

impl Lsp {
    /// Drops the lenses, and the reply to any request for them.
    pub fn invalidate_code_lenses(&mut self)
        ensures
            without_lenses(*old(self), *final(self)),
    {
        self.code_lens_generation = bump(self.code_lens_generation);
        self.code_lens_requested_generation = None;
        self.code_lenses = Vec::new();
        self.code_lens_resolve_attempted = Vec::new();
    }

    pub fn code_lens_lines(&self) -> (lines: Vec<usize>)
        ensures
            order::indices_view(lines@) == lens_lines(
                self.code_lenses@,
                self.code_lenses@.len() as int,
            ),
            order::is_ascending(order::indices_view(lines@)),
    {
        unique_lens_lines(&self.code_lenses)
    }

    pub fn has_code_lens_on_line(&self, line: usize) -> (found: bool)
        ensures
            found == (nth_on_line(self.code_lenses@, line as int, 0, 0) is Some),
    {
        let mut i: usize = 0;
        while i < self.code_lenses.len()
            invariant
                i <= self.code_lenses@.len(),
                nth_on_line(self.code_lenses@, line as int, 0, 0) == nth_on_line(
                    self.code_lenses@,
                    line as int,
                    0,
                    i as int,
                ),
            decreases self.code_lenses.len() - i,
        {
            if self.code_lenses[i].range.start.line as usize == line {
                return true;
            }
            i = i + 1;
        }
        false
    }

    /// The lenses of a line, as they are shown.
    pub fn code_lenses_on_line(&self, line: usize) -> (shown: Vec<DisplayCodeLens>)
        ensures
            displays_view(shown@) == lenses_on_line(
                self.code_lenses@,
                line as int,
                self.code_lenses@.len() as int,
            ),
    {
        let mut shown: Vec<DisplayCodeLens> = Vec::new();
        let mut i: usize = 0;
        while i < self.code_lenses.len()
            invariant
                i <= self.code_lenses@.len(),
                displays_view(shown@) =~= lenses_on_line(self.code_lenses@, line as int, i as int),
            decreases self.code_lenses.len() - i,
        {
            let lens = &self.code_lenses[i];
            if lens.range.start.line as usize == line {
                let title = match &lens.command {
                    Some(command) => Some(
                        chars::ellipsize(command.title.as_str(), MAX_CODE_LENS_TITLE_CHARS),
                    ),
                    None => None,
                };
                let index: usize = shown.len();
                shown.push(DisplayCodeLens { line, index, title, lens: copy_lens(lens) });
            }
            i = i + 1;
        }
        shown
    }

    /// Every lens, as it is shown, line by line.
    pub fn code_lenses(&self) -> (shown: Vec<DisplayCodeLens>)
        ensures
            displays_view(shown@) == lenses_on_lines(
                self.code_lenses@,
                lens_lines(self.code_lenses@, self.code_lenses@.len() as int),
                lens_lines(self.code_lenses@, self.code_lenses@.len() as int).len() as int,
            ),
    {
        let lines = self.code_lens_lines();
        let ghost view = order::indices_view(lines@);
        let mut shown: Vec<DisplayCodeLens> = Vec::new();
        let mut i: usize = 0;
        while i < lines.len()
            invariant
                i <= lines@.len(),
                view == order::indices_view(lines@),
                displays_view(shown@) =~= lenses_on_lines(self.code_lenses@, view, i as int),
            decreases lines.len() - i,
        {
            assert(view[i as int] == lines@[i as int]);
            let ghost before = shown@;
            let mut more = self.code_lenses_on_line(lines[i]);
            let ghost added = more@;
            shown.append(&mut more);
            assert(displays_view(shown@) =~= displays_view(before) + displays_view(added));
            i = i + 1;
        }
        shown
    }

    /// Asks for the lenses of the text, once for each generation.
    pub fn request_code_lenses(&mut self, has_provider: bool) -> (generation: Option<u64>)
        ensures
            !has_provider ==> generation is None && without_lenses(*old(self), *final(self)),
            has_provider && old(self).code_lens_requested_generation == Some(
                old(self).code_lens_generation,
            ) ==> generation is None && *final(self) == *old(self),
            has_provider && old(self).code_lens_requested_generation != Some(
                old(self).code_lens_generation,
            ) ==> generation == Some(old(self).code_lens_generation) && *final(self) == (Lsp {
                code_lens_requested_generation: generation,
                ..*old(self)
            }),
    {
        if !has_provider {
            self.invalidate_code_lenses();
            return None;
        }
        if let Some(requested) = self.code_lens_requested_generation {
            if requested == self.code_lens_generation {
                return None;
            }
        }
        self.code_lens_requested_generation = Some(self.code_lens_generation);
        self.code_lens_requested_generation
    }

    /// Whether the lenses of a request are still wanted.
    pub open spec fn awaits_lenses(&self, generation: u64) -> bool {
        self.code_lens_generation == generation && self.code_lens_requested_generation == Some(
            generation,
        )
    }

    /// Takes the lenses that a request brought for `document`, if they are
    /// still wanted.
    pub fn receive_code_lenses(
        &mut self,
        document: &Document,
        generation: u64,
        lenses: Vec<CodeLens>,
        can_resolve: bool,
    ) -> (taken: bool)
        requires
            document.wf(),
        ensures
            taken == old(self).awaits_lenses(generation),
            !taken ==> *final(self) == *old(self),
            taken ==> {
                &&& *final(self) == (Lsp {
                    code_lenses: final(self).code_lenses,
                    code_lens_resolve_attempted: final(self).code_lens_resolve_attempted,
                    ..*old(self)
                })
                &&& final(self).code_lenses@ == normal_lenses(document.bytes(), lenses@)
                &&& final(self).code_lens_resolve_attempted@ == Seq::new(
                    final(self).code_lenses@.len(),
                    |i: int| final(self).code_lenses@[i].command is Some || !can_resolve,
                )
            },
    {
        let wanted = match self.code_lens_requested_generation {
            Some(requested) => requested == generation,
            None => false,
        };
        if self.code_lens_generation != generation || !wanted {
            return false;
        }
        let normal = normalize_code_lenses(document, lenses);
        let mut attempted: Vec<bool> = Vec::new();
        let mut i: usize = 0;
        while i < normal.len()
            invariant
                i <= normal@.len(),
                attempted@ =~= Seq::new(
                    i as nat,
                    |k: int| normal@[k].command is Some || !can_resolve,
                ),
            decreases normal.len() - i,
        {
            attempted.push(normal[i].command.is_some() || !can_resolve);
            i = i + 1;
        }
        self.code_lens_resolve_attempted = attempted;
        self.code_lenses = normal;
        true
    }

    /// Asks to resolve the first lens in the rows that can be resolved.
    pub fn resolve_visible_code_lens(
        &mut self,
        can_resolve: bool,
        visible_rows: Range<usize>,
    ) -> (request: Option<CodeLensResolution>)
        ensures
            match if can_resolve {
                unresolved_lens(
                    old(self).code_lenses@,
                    old(self).code_lens_resolve_attempted@,
                    visible_rows,
                    0,
                )
            } else {
                None
            } {
                Some(index) => {
                    &&& request == Some(
                        CodeLensResolution {
                            generation: old(self).code_lens_generation,
                            index: index as usize,
                            lens: old(self).code_lenses@[index],
                        },
                    )
                    &&& 0 <= index < old(self).code_lenses@.len() <= usize::MAX
                    &&& *final(self) == (Lsp {
                        code_lens_resolve_attempted: final(self).code_lens_resolve_attempted,
                        ..*old(self)
                    })
                    &&& final(self).code_lens_resolve_attempted@ == old(
                        self,
                    ).code_lens_resolve_attempted@.update(index, true)
                },
                None => request is None && *final(self) == *old(self),
            },
    {
        if !can_resolve {
            return None;
        }
        let mut i: usize = 0;
        let total: usize = self.code_lenses.len();
        while i < total
            invariant
                can_resolve,
                i <= total,
                total == self.code_lenses@.len(),
                *self == *old(self),
                unresolved_lens(
                    self.code_lenses@,
                    self.code_lens_resolve_attempted@,
                    visible_rows,
                    0,
                ) == unresolved_lens(
                    self.code_lenses@,
                    self.code_lens_resolve_attempted@,
                    visible_rows,
                    i as int,
                ),
            decreases total - i,
        {
            let line: usize = self.code_lenses[i].range.start.line as usize;
            if visible_rows.start <= line && line < visible_rows.end
                && self.code_lenses[i].command.is_none() && i
                < self.code_lens_resolve_attempted.len() && !self.code_lens_resolve_attempted[i] {
                self.code_lens_resolve_attempted.set(i, true);
                return Some(
                    CodeLensResolution {
                        generation: self.code_lens_generation,
                        index: i,
                        lens: copy_lens(&self.code_lenses[i]),
                    },
                );
            }
            i = i + 1;
        }
        None
    }

    /// Whether the reply to a request to resolve a lens is still wanted: the
    /// lens is still there, and the reply lies in the text.
    pub open spec fn accepts_resolution(
        &self,
        t: Seq<u8>,
        request: CodeLensResolution,
        resolved: CodeLens,
    ) -> bool {
        &&& is_valid_lens(t, resolved)
        &&& self.code_lens_generation == request.generation
        &&& request.index < self.code_lenses@.len()
        &&& same_lens(self.code_lenses@[request.index as int], request.lens)
    }

    /// Takes a resolved lens, at the range that it had.
    pub fn receive_resolved_code_lens(
        &mut self,
        document: &Document,
        request: &CodeLensResolution,
        resolved: CodeLens,
    ) -> (taken: bool)
        requires
            document.wf(),
        ensures
            taken == old(self).accepts_resolution(document.bytes(), *request, resolved),
            !taken ==> *final(self) == *old(self),
            taken ==> {
                &&& *final(self) == (Lsp { code_lenses: final(self).code_lenses, ..*old(self) })
                &&& final(self).code_lenses@ == old(self).code_lenses@.update(
                    request.index as int,
                    (CodeLens { range: request.lens.range, ..resolved }),
                )
            },
    {
        if !valid_lens(document, &resolved) {
            return false;
        }
        if self.code_lens_generation != request.generation || request.index
            >= self.code_lenses.len() {
            return false;
        }
        if !check_same_lens(&self.code_lenses[request.index], &request.lens) {
            return false;
        }
        let mut resolved = resolved;
        resolved.range = request.lens.range;
        self.code_lenses.set(request.index, resolved);
        true
    }
}

impl InputState {
    /// Asks for lenses, and to resolve one of those in the rows.
    pub fn refresh_code_lenses(
        &mut self,
        provider: Option<bool>,
        visible_rows: Range<usize>,
    ) -> (requests: (Option<u64>, Option<CodeLensResolution>))
        ensures
            *final(self) == (InputState { lsp: final(self).lsp, ..*old(self) }),
            provider is None ==> requests == (None::<u64>, None::<CodeLensResolution>)
                && without_lenses(old(self).lsp, final(self).lsp),
            provider is Some ==> {
                &&& requests.0 == if old(self).lsp.code_lens_requested_generation == Some(
                    old(self).lsp.code_lens_generation,
                ) {
                    None
                } else {
                    Some(old(self).lsp.code_lens_generation)
                }
                &&& final(self).lsp == (Lsp {
                    code_lens_requested_generation: Some(old(self).lsp.code_lens_generation),
                    code_lens_resolve_attempted: final(self).lsp.code_lens_resolve_attempted,
                    ..old(self).lsp
                })
                &&& match if provider->Some_0 {
                    unresolved_lens(
                        old(self).lsp.code_lenses@,
                        old(self).lsp.code_lens_resolve_attempted@,
                        visible_rows,
                        0,
                    )
                } else {
                    None
                } {
                    Some(index) => {
                        &&& requests.1 == Some(
                            CodeLensResolution {
                                generation: old(self).lsp.code_lens_generation,
                                index: index as usize,
                                lens: old(self).lsp.code_lenses@[index],
                            },
                        )
                        &&& final(self).lsp.code_lens_resolve_attempted@ == old(
                            self,
                        ).lsp.code_lens_resolve_attempted@.update(index, true)
                    },
                    None => requests.1 is None && final(self).lsp.code_lens_resolve_attempted
                        == old(self).lsp.code_lens_resolve_attempted,
                }
            },
    {
        let generation = self.lsp.request_code_lenses(provider.is_some());
        match provider {
            Some(can_resolve) => {
                let request = self.lsp.resolve_visible_code_lens(can_resolve, visible_rows);
                (generation, request)
            },
            None => (generation, None),
        }
    }

    /// Drop cached lenses and request a fresh document snapshot on the next
    /// editor paint.
    pub fn invalidate_code_lenses(&mut self)
        ensures
            without_lenses(old(self).lsp, final(self).lsp),
            *final(self) == (InputState { lsp: final(self).lsp, ..*old(self) }),
    {
        self.lsp.invalidate_code_lenses();
    }

    /// Ask the provider for a fresh snapshot while retaining the current rows
    /// until the response arrives.
    pub fn refresh_code_lenses_from_provider(&mut self)
        ensures
            *final(self) == (InputState {
                lsp: Lsp {
                    code_lens_generation: next_generation(old(self).lsp.code_lens_generation),
                    code_lens_requested_generation: None,
                    ..old(self).lsp
                },
                ..*old(self)
            }),
    {
        self.lsp.code_lens_generation = bump(self.lsp.code_lens_generation);
        self.lsp.code_lens_requested_generation = None;
    }

    /// Discover lenses attached to a buffer line.
    pub fn code_lenses_on_line(&self, line: usize) -> (shown: Vec<DisplayCodeLens>)
        ensures
            displays_view(shown@) == lenses_on_line(
                self.lsp.code_lenses@,
                line as int,
                self.lsp.code_lenses@.len() as int,
            ),
    {
        self.lsp.code_lenses_on_line(line)
    }

    /// Discover every cached lens in document order.
    pub fn code_lenses(&self) -> (shown: Vec<DisplayCodeLens>)
        ensures
            displays_view(shown@) == lenses_on_lines(
                self.lsp.code_lenses@,
                lens_lines(self.lsp.code_lenses@, self.lsp.code_lenses@.len() as int),
                lens_lines(self.lsp.code_lenses@, self.lsp.code_lenses@.len() as int).len() as int,
            ),
    {
        self.lsp.code_lenses()
    }

    /// The lens to execute for a line and a per-line index.
    ///
    /// Returns none for a missing, unresolved, or provider-less item.
    pub fn execute_code_lens_at(&self, has_provider: bool, line: usize, index: usize) -> (lens:
        Option<CodeLens>)
        ensures
            lens == match nth_on_line(self.lsp.code_lenses@, line as int, index as int, 0) {
                Some(found) => if has_provider && self.lsp.code_lenses@[found].command is Some {
                    Some(self.lsp.code_lenses@[found])
                } else {
                    None
                },
                None => None,
            },
    {
        if !has_provider {
            return None;
        }
        let mut left: usize = index;
        let mut i: usize = 0;
        while i < self.lsp.code_lenses.len()
            invariant
                i <= self.lsp.code_lenses@.len(),
                nth_on_line(self.lsp.code_lenses@, line as int, index as int, 0) == nth_on_line(
                    self.lsp.code_lenses@,
                    line as int,
                    left as int,
                    i as int,
                ),
                has_provider,
            decreases self.lsp.code_lenses.len() - i,
        {
            let lens = &self.lsp.code_lenses[i];
            if lens.range.start.line as usize == line {
                if left == 0 {
                    if lens.command.is_none() {
                        return None;
                    }
                    return Some(copy_lens(lens));
                }
                left = left - 1;
            }
            i = i + 1;
        }
        None
    }
}

/// Once the lenses are dropped, no request from before brings any.
pub proof fn law_dropped_lenses_stay_dropped(before: Lsp, after: Lsp, generation: u64)
    requires
        before.awaits_lenses(generation),
        without_lenses(before, after),
    ensures
        !after.awaits_lenses(generation),
{
}

} // verus!

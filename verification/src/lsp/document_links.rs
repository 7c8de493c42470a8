//! Links in the text.

use crate::chars;
use crate::lsp::code_lens::{copy_optional, same_optional};
use crate::lsp::items;
use crate::lsp::position::{check_position_le, position_le, position_offset, TextRange};
use crate::lsp::{bump, next_generation, Lsp};
use crate::order;
use crate::snippet_variables::optional_view;
use crate::state::InputState;
use crate::text;
use crate::text::Document;
use std::ops::Range;
use vstd::prelude::*;

verus! {

pub const MAX_DOCUMENT_LINKS: usize = 2_000;

/// A part of the text that leads to a target.
#[derive(Debug, Clone, PartialEq, Eq)]
pub struct DocumentLink {
    pub range: TextRange,
    pub target: Option<String>,
    pub tooltip: Option<String>,
    pub data: Option<String>,
}

/// A request to resolve one link.
#[derive(Debug, Clone, PartialEq, Eq)]
pub struct DocumentLinkResolution {
    pub generation: u64,
    pub link: DocumentLink,
}

/// What to do with a link that is opened.
#[derive(Debug, Clone, PartialEq, Eq)]
pub enum DocumentLinkStep {
    Ignore,
    Activate { link: DocumentLink },
    Resolve { request: DocumentLinkResolution },
}

/// The two links say the same.
pub open spec fn same_link(a: DocumentLink, b: DocumentLink) -> bool {
    a.range == b.range && optional_view(a.target) == optional_view(b.target) && optional_view(
        a.tooltip,
    ) == optional_view(b.tooltip) && optional_view(a.data) == optional_view(b.data)
}

fn check_same_link(a: &DocumentLink, b: &DocumentLink) -> (same: bool)
    ensures
        same == same_link(*a, *b),
{
    a.range == b.range && same_optional(&a.target, &b.target) && same_optional(
        &a.tooltip,
        &b.tooltip,
    ) && same_optional(&a.data, &b.data)
}

fn copy_link(link: &DocumentLink) -> (result: DocumentLink)
    ensures
        result == *link,
{
    DocumentLink {
        range: link.range,
        target: copy_optional(&link.target),
        tooltip: copy_optional(&link.tooltip),
        data: copy_optional(&link.data),
    }
}

/// The link is a part of one line of the text.
pub open spec fn is_valid_link(t: Seq<u8>, range: TextRange) -> bool {
    range.start.line == range.end.line && position_le(range.start, range.end) && range.start
        != range.end && range.start.line < text::line_count(t)
}

pub fn valid_document_link(document: &Document, link: &DocumentLink) -> (valid: bool)
    requires
        document.wf(),
    ensures
        valid == is_valid_link(document.bytes(), link.range),
{
    let range = link.range;
    range.start.line == range.end.line && check_position_le(range.start, range.end) && range.start
        != range.end && (range.start.line as usize) < document.lines_len()
}

pub open spec fn link_ranges(links: Seq<DocumentLink>) -> Seq<TextRange> {
    Seq::new(links.len(), |i: int| links[i].range)
}

pub open spec fn link_flags(t: Seq<u8>, links: Seq<DocumentLink>) -> Seq<bool> {
    Seq::new(links.len(), |i: int| is_valid_link(t, links[i].range))
}

/// The indices of the links that are kept.
pub open spec fn normal_link_indices(t: Seq<u8>, links: Seq<DocumentLink>) -> Seq<int> {
    let chosen = items::ordered_choice(
        link_ranges(links),
        link_flags(t, links),
        MAX_DOCUMENT_LINKS as int,
    );
    items::separated(link_ranges(links), chosen, false, chosen.len() as int)
}

/// The links in the text in the order of their ranges, without those that
/// overlap or touch the one before.
pub open spec fn normal_links(t: Seq<u8>, links: Seq<DocumentLink>) -> Seq<DocumentLink> {
    items::picked(links, normal_link_indices(t, links))
}

/// The links in the text in the order of their ranges, without those that
/// overlap or touch the one before.
pub fn normalize_document_links(document: &Document, links: Vec<DocumentLink>) -> (normal: Vec<
    DocumentLink,
>)
    requires
        document.wf(),
    ensures
        normal@ == normal_links(document.bytes(), links@),
{
    let ghost t = document.bytes();
    let mut ranges: Vec<TextRange> = Vec::new();
    let mut flags: Vec<bool> = Vec::new();
    let mut i: usize = 0;
    while i < links.len()
        invariant
            i <= links@.len(),
            document.wf(),
            t == document.bytes(),
            ranges@ =~= link_ranges(links@).take(i as int),
            flags@ =~= link_flags(t, links@).take(i as int),
        decreases links.len() - i,
    {
        ranges.push(links[i].range);
        flags.push(valid_document_link(document, &links[i]));
        i = i + 1;
    }
    assert(ranges@ =~= link_ranges(links@));
    assert(flags@ =~= link_flags(t, links@));
    let chosen = items::choose_ordered(&ranges, &flags, MAX_DOCUMENT_LINKS);
    let kept = items::separate(&ranges, &chosen, false);
    proof {
        let view = order::indices_view(chosen@);
        items::lemma_ordered_choice(ranges@, flags@, MAX_DOCUMENT_LINKS as int);
        items::lemma_separated(ranges@, view, false, view.len() as int);
    }
    items::pick(links, &kept)
}

/// Normal links are parts of lines of the text, none overlaps or touches
/// another, they ascend, and they are not more than the limit.
pub proof fn law_normal_links(t: Seq<u8>, links: Seq<DocumentLink>)
    ensures
        normal_links(t, links).len() <= MAX_DOCUMENT_LINKS,
        forall|i: int|
            #![trigger normal_links(t, links)[i]]
            0 <= i < normal_links(t, links).len() ==> is_valid_link(
                t,
                normal_links(t, links)[i].range,
            ) && links.contains(normal_links(t, links)[i]),
        forall|i: int, j: int|
            #![trigger normal_links(t, links)[i], normal_links(t, links)[j]]
            0 <= i < j < normal_links(t, links).len() ==> position_le(
                normal_links(t, links)[i].range.end,
                normal_links(t, links)[j].range.start,
            ) && normal_links(t, links)[i].range.end != normal_links(t, links)[j].range.start,
{
    let ranges = link_ranges(links);
    let flags = link_flags(t, links);
    let chosen = items::ordered_choice(ranges, flags, MAX_DOCUMENT_LINKS as int);
    items::lemma_ordered_choice(ranges, flags, MAX_DOCUMENT_LINKS as int);
    items::lemma_separated(ranges, chosen, false, chosen.len() as int);
    let kept = normal_link_indices(t, links);
    let normal = normal_links(t, links);
    assert forall|i: int| #![trigger normal[i]] 0 <= i < normal.len() implies is_valid_link(
        t,
        normal[i].range,
    ) && links.contains(normal[i]) by {
        assert(normal[i] == links[kept[i]]);
        let k = choose|k: int| 0 <= k < chosen.len() && #[trigger] chosen[k] == kept[i];
        assert(flags[chosen[k]]);
    }
    assert forall|i: int, j: int|
        #![trigger normal[i], normal[j]]
        0 <= i < j < normal.len() implies position_le(normal[i].range.end, normal[j].range.start)
        && normal[i].range.end != normal[j].range.start by {
        assert(normal[i] == links[kept[i]]);
        assert(normal[j] == links[kept[j]]);
        let next = i + 1;
        assert(normal[next] == links[kept[next]]);
        assert(!items::is_blocked(ranges[kept[i]], ranges[kept[next]], false));
        assert(items::range_le(ranges[kept[i]], ranges[kept[next]]));
        if next < j {
            assert(items::range_le(ranges[kept[next]], ranges[kept[j]]));
        }
    }
}

/// The offsets between which a range lies.
pub open spec fn byte_range(t: Seq<u8>, range: TextRange) -> (int, int) {
    (position_offset(t, range.start), position_offset(t, range.end))
}

pub fn find_byte_range(document: &Document, range: &TextRange) -> (bytes: Range<usize>)
    requires
        document.wf(),
    ensures
        (bytes.start as int, bytes.end as int) == byte_range(document.bytes(), *range),
        bytes.start <= document.bytes().len(),
        bytes.end <= document.bytes().len(),
{
    Range {
        start: document.position_to_offset(&range.start),
        end: document.position_to_offset(&range.end),
    }
}

/// The first of the ranges from `from` on that holds the offset.
pub open spec fn range_at(t: Seq<u8>, ranges: Seq<TextRange>, offset: int, from: int) -> Option<int>
    decreases ranges.len() - from,
{
    if from >= ranges.len() {
        None
    } else if byte_range(t, ranges[from]).0 <= offset < byte_range(t, ranges[from]).1 {
        Some(from)
    } else {
        range_at(t, ranges, offset, from + 1)
    }
}

pub proof fn lemma_range_at(t: Seq<u8>, ranges: Seq<TextRange>, offset: int, from: int)
    requires
        0 <= from,
    ensures
        match range_at(t, ranges, offset, from) {
            Some(index) => from <= index < ranges.len(),
            None => true,
        },
    decreases ranges.len() - from,
{
    if from < ranges.len() {
        lemma_range_at(t, ranges, offset, from + 1);
    }
}

/// The ranges in the visible part of the text, each with whether its link is
/// the active one.
pub open spec fn visible_links(
    t: Seq<u8>,
    links: Seq<DocumentLink>,
    active: Option<DocumentLink>,
    visible: Range<usize>,
    n: int,
) -> Seq<(int, int, bool)>
    decreases n,
{
    if n <= 0 {
        Seq::empty()
    } else {
        let before = visible_links(t, links, active, visible, n - 1);
        let (start, end) = byte_range(t, links[n - 1].range);
        if end <= visible.start || start >= visible.end {
            before
        } else {
            before.push((start, end, active is Some && same_link(active->Some_0, links[n - 1])))
        }
    }
}

pub open spec fn spans_view(spans: Seq<(Range<usize>, bool)>) -> Seq<(int, int, bool)> {
    Seq::new(
        spans.len(),
        |i: int| (spans[i].0.start as int, spans[i].0.end as int, spans[i].1),
    )
}

/// No links, and a generation that no request has.
pub open spec fn without_links(before: Lsp, after: Lsp) -> bool {
    &&& after == (Lsp {
        document_link_generation: next_generation(before.document_link_generation),
        document_link_requested_generation: None,
        document_links: after.document_links,
        active_document_link: None,
        ..before
    })
    &&& after.document_links@.len() == 0
}

/// The first of the links from `from` on that says the same.
pub open spec fn link_index(links: Seq<DocumentLink>, link: DocumentLink, from: int) -> Option<int>
    decreases links.len() - from,
{
    if from >= links.len() {
        None
    } else if same_link(links[from], link) {
        Some(from)
    } else {
        link_index(links, link, from + 1)
    }
}

impl Lsp {
    /// Drops the links, and the reply to any request for them.
    pub fn invalidate_document_links(&mut self)
        ensures
            without_links(*old(self), *final(self)),
    {
        self.document_link_generation = bump(self.document_link_generation);
        self.document_link_requested_generation = None;
        self.document_links = Vec::new();
        self.active_document_link = None;
    }

    /// The first link that holds the offset.
    pub open spec fn link_at(&self, t: Seq<u8>, offset: int) -> Option<int> {
        range_at(t, link_ranges(self.document_links@), offset, 0)
    }

    /// The first link that holds the offset.
    pub fn document_link_at_offset(&self, document: &Document, offset: usize) -> (index: Option<
        usize,
    >)
        requires
            document.wf(),
        ensures
            match index {
                Some(index) => self.link_at(document.bytes(), offset as int) == Some(index as int)
                    && index < self.document_links@.len(),
                None => self.link_at(document.bytes(), offset as int) is None,
            },
    {
        let ghost ranges = link_ranges(self.document_links@);
        let ghost t = document.bytes();
        let mut i: usize = 0;
        while i < self.document_links.len()
            invariant
                document.wf(),
                t == document.bytes(),
                ranges == link_ranges(self.document_links@),
                i <= self.document_links@.len(),
                range_at(t, ranges, offset as int, 0) == range_at(
                    t,
                    ranges,
                    offset as int,
                    i as int,
                ),
            decreases self.document_links.len() - i,
        {
            let bytes = find_byte_range(document, &self.document_links[i].range);
            if bytes.start <= offset && offset < bytes.end {
                return Some(i);
            }
            i = i + 1;
        }
        None
    }

    /// Makes the link at the offset the active one. Returns whether that is a change.
    pub fn set_active_document_link_at(&mut self, document: &Document, offset: usize) -> (changed:
        bool)
        requires
            document.wf(),
        ensures
            *final(self) == (Lsp {
                active_document_link: match old(self).link_at(document.bytes(), offset as int) {
                    Some(index) => Some(old(self).document_links@[index]),
                    None => None,
                },
                ..*old(self)
            }),
            changed == match (old(self).active_document_link, final(self).active_document_link) {
                (Some(a), Some(b)) => !same_link(a, b),
                (None, None) => false,
                _ => true,
            },
    {
        let next = match self.document_link_at_offset(document, offset) {
            Some(index) => Some(copy_link(&self.document_links[index])),
            None => None,
        };
        let changed = match (&self.active_document_link, &next) {
            (Some(a), Some(b)) => !check_same_link(a, b),
            (None, None) => false,
            _ => true,
        };
        self.active_document_link = next;
        changed
    }

    /// Returns whether there was an active link.
    pub fn clear_active_document_link(&mut self) -> (cleared: bool)
        ensures
            cleared == (old(self).active_document_link is Some),
            *final(self) == (Lsp { active_document_link: None, ..*old(self) }),
    {
        let cleared = self.active_document_link.is_some();
        self.active_document_link = None;
        cleared
    }

    /// The links in the visible part of the text, each with whether it is active.
    pub fn document_links_for_range(
        &self,
        document: &Document,
        visible_range: &Range<usize>,
    ) -> (spans: Vec<(Range<usize>, bool)>)
        requires
            document.wf(),
        ensures
            spans_view(spans@) == visible_links(
                document.bytes(),
                self.document_links@,
                self.active_document_link,
                *visible_range,
                self.document_links@.len() as int,
            ),
    {
        let mut spans: Vec<(Range<usize>, bool)> = Vec::new();
        let mut i: usize = 0;
        while i < self.document_links.len()
            invariant
                document.wf(),
                i <= self.document_links@.len(),
                spans_view(spans@) =~= visible_links(
                    document.bytes(),
                    self.document_links@,
                    self.active_document_link,
                    *visible_range,
                    i as int,
                ),
            decreases self.document_links.len() - i,
        {
            let link = &self.document_links[i];
            let bytes = find_byte_range(document, &link.range);
            if !(bytes.end <= visible_range.start || bytes.start >= visible_range.end) {
                let active = match &self.active_document_link {
                    Some(active) => check_same_link(active, link),
                    None => false,
                };
                spans.push((bytes, active));
            }
            i = i + 1;
        }
        spans
    }

    /// Asks for the links of the text, once for each generation.
    pub fn request_document_links(&mut self, has_provider: bool) -> (generation: Option<u64>)
        ensures
            !has_provider ==> generation is None && without_links(*old(self), *final(self)),
            has_provider && old(self).document_link_requested_generation == Some(
                old(self).document_link_generation,
            ) ==> generation is None && *final(self) == *old(self),
            has_provider && old(self).document_link_requested_generation != Some(
                old(self).document_link_generation,
            ) ==> generation == Some(old(self).document_link_generation) && *final(self) == (Lsp {
                document_link_requested_generation: generation,
                ..*old(self)
            }),
    {
        if !has_provider {
            self.invalidate_document_links();
            return None;
        }
        if let Some(requested) = self.document_link_requested_generation {
            if requested == self.document_link_generation {
                return None;
            }
        }
        self.document_link_requested_generation = Some(self.document_link_generation);
        self.document_link_requested_generation
    }

    /// Whether the links of a request are still wanted.
    pub open spec fn awaits_links(&self, generation: u64) -> bool {
        self.document_link_generation == generation && self.document_link_requested_generation
            == Some(generation)
    }

    /// Takes the links that a request brought for `document`, if they are
    /// still wanted.
    pub fn receive_document_links(
        &mut self,
        document: &Document,
        generation: u64,
        links: Vec<DocumentLink>,
    ) -> (taken: bool)
        requires
            document.wf(),
        ensures
            taken == old(self).awaits_links(generation),
            !taken ==> *final(self) == *old(self),
            taken ==> {
                &&& *final(self) == (Lsp {
                    document_links: final(self).document_links,
                    active_document_link: None,
                    ..*old(self)
                })
                &&& final(self).document_links@ == normal_links(document.bytes(), links@)
            },
    {
        let wanted = match self.document_link_requested_generation {
            Some(requested) => requested == generation,
            None => false,
        };
        if self.document_link_generation != generation || !wanted {
            return false;
        }
        self.document_links = normalize_document_links(document, links);
        self.active_document_link = None;
        true
    }
}

/// Whether a target is opened as a web page.
pub open spec fn is_web_target(target: Seq<char>) -> bool {
    "http:"@.is_prefix_of(target) || "https:"@.is_prefix_of(target)
}

fn starts_with(s: &str, prefix: &str) -> (starts: bool)
    ensures
        starts == prefix@.is_prefix_of(s@),
{
    let all = chars::chars_of(s);
    let first = chars::chars_of(prefix);
    if first.len() > all.len() {
        return false;
    }
    let mut i: usize = 0;
    while i < first.len()
        invariant
            all@ == s@,
            first@ == prefix@,
            i <= first@.len() <= all@.len(),
            forall|k: int| 0 <= k < i ==> #[trigger] first@[k] == all@[k],
        decreases first.len() - i,
    {
        if first[i] != all[i] {
            assert(s@.subrange(0, prefix@.len() as int)[i as int] == s@[i as int]);
            return false;
        }
        i = i + 1;
    }
    assert(s@.subrange(0, prefix@.len() as int) =~= prefix@);
    true
}

/// Whether an editor opens the target of a link that the integration did not.
pub fn opens_as_web_page(target: &str) -> (opens: bool)
    ensures
        opens == is_web_target(target@),
{
    starts_with(target, "http:") || starts_with(target, "https:")
}

impl InputState {
    /// Asks for the links of the text, once for each generation.
    pub fn refresh_document_links(&mut self, has_provider: bool) -> (generation: Option<u64>)
        ensures
            *final(self) == (InputState { lsp: final(self).lsp, ..*old(self) }),
            !has_provider ==> generation is None && without_links(old(self).lsp, final(self).lsp),
            has_provider && old(self).lsp.document_link_requested_generation == Some(
                old(self).lsp.document_link_generation,
            ) ==> generation is None && final(self).lsp == old(self).lsp,
            has_provider && old(self).lsp.document_link_requested_generation != Some(
                old(self).lsp.document_link_generation,
            ) ==> generation == Some(old(self).lsp.document_link_generation) && final(self).lsp
                == (Lsp { document_link_requested_generation: generation, ..old(self).lsp }),
    {
        self.lsp.request_document_links(has_provider)
    }

    pub fn document_links(&self) -> (links: &Vec<DocumentLink>)
        ensures
            *links == self.lsp.document_links,
    {
        &self.lsp.document_links
    }

    pub fn has_document_link_at_cursor(&self) -> (found: bool)
        ensures
            found == (self.lsp.link_at(self.bytes(), self.primary().spec_head() as int) is Some),
    {
        self.lsp.document_link_at_offset(&self.document(), self.cursor()).is_some()
    }

    /// Makes the link at the offset the active one. Returns whether there is one.
    pub fn handle_hover_document_link(&mut self, offset: usize) -> (active: bool)
        ensures
            active == (old(self).lsp.link_at(old(self).bytes(), offset as int) is Some),
            *final(self) == (InputState {
                lsp: Lsp {
                    active_document_link: match old(self).lsp.link_at(
                        old(self).bytes(),
                        offset as int,
                    ) {
                        Some(index) => Some(old(self).lsp.document_links@[index]),
                        None => None,
                    },
                    ..old(self).lsp
                },
                ..*old(self)
            }),
    {
        let document = self.document();
        self.lsp.set_active_document_link_at(&document, offset);
        self.lsp.active_document_link.is_some()
    }

    /// What opening a link does.
    pub open spec fn link_step(&self, link: DocumentLink, provider: Option<bool>) -> DocumentLinkStep {
        if provider is None {
            DocumentLinkStep::Ignore
        } else if link.target is Some {
            DocumentLinkStep::Activate { link }
        } else if provider == Some(true) {
            DocumentLinkStep::Resolve {
                request: DocumentLinkResolution {
                    generation: self.lsp.document_link_generation,
                    link,
                },
            }
        } else {
            DocumentLinkStep::Ignore
        }
    }

    /// What opening a link does: with a target it is activated, without one it
    /// is resolved where the provider can.
    pub fn activate_document_link(&self, link: DocumentLink, provider: Option<bool>) -> (step:
        DocumentLinkStep)
        ensures
            step == self.link_step(link, provider),
    {
        match provider {
            Some(can_resolve) => {
                if link.target.is_some() {
                    return DocumentLinkStep::Activate { link };
                }
                if !can_resolve {
                    return DocumentLinkStep::Ignore;
                }
                DocumentLinkStep::Resolve {
                    request: DocumentLinkResolution {
                        generation: self.lsp.document_link_generation,
                        link,
                    },
                }
            },
            None => DocumentLinkStep::Ignore,
        }
    }

    /// What opening the link at the cursor does, if there is one.
    pub fn open_document_link_at_cursor(&self, provider: Option<bool>) -> (step: Option<
        DocumentLinkStep,
    >)
        ensures
            step == match self.lsp.link_at(self.bytes(), self.primary().spec_head() as int) {
                Some(index) => Some(self.link_step(self.lsp.document_links@[index], provider)),
                None => None,
            },
    {
        self.open_document_link_at(self.cursor(), provider)
    }

    /// What opening the link at an offset does, if there is one.
    pub fn open_document_link_at(&self, offset: usize, provider: Option<bool>) -> (step: Option<
        DocumentLinkStep,
    >)
        ensures
            step == match self.lsp.link_at(self.bytes(), offset as int) {
                Some(index) => Some(self.link_step(self.lsp.document_links@[index], provider)),
                None => None,
            },
    {
        match self.lsp.document_link_at_offset(&self.document(), offset) {
            Some(index) => Some(
                self.activate_document_link(copy_link(&self.lsp.document_links[index]), provider),
            ),
            None => None,
        }
    }

    /// The index at which a resolved link is taken: that of the link it was
    /// asked for, while it is still there and has not moved.
    pub open spec fn resolved_link_index(
        &self,
        request: DocumentLinkResolution,
        resolved: DocumentLink,
    ) -> Option<int> {
        if self.lsp.document_link_generation == request.generation && resolved.range
            == request.link.range && is_valid_link(self.bytes(), resolved.range) {
            link_index(self.lsp.document_links@, request.link, 0)
        } else {
            None
        }
    }

    /// Takes a resolved link in place of the one it was asked for. The caller
    /// then activates it.
    pub fn receive_resolved_document_link(
        &mut self,
        request: &DocumentLinkResolution,
        resolved: DocumentLink,
    ) -> (taken: bool)
        ensures
            match old(self).resolved_link_index(*request, resolved) {
                Some(index) => {
                    &&& taken
                    &&& *final(self) == (InputState {
                        lsp: Lsp {
                            document_links: final(self).lsp.document_links,
                            ..old(self).lsp
                        },
                        ..*old(self)
                    })
                    &&& final(self).lsp.document_links@ == old(self).lsp.document_links@.update(
                        index,
                        resolved,
                    )
                },
                None => !taken && *final(self) == *old(self),
            },
    {
        let document = self.document();
        if self.lsp.document_link_generation != request.generation || resolved.range
            != request.link.range || !valid_document_link(&document, &resolved) {
            return false;
        }
        let mut i: usize = 0;
        let total: usize = self.lsp.document_links.len();
        while i < total
            invariant
                *self == *old(self),
                total == self.lsp.document_links@.len(),
                i <= total,
                self.lsp.document_link_generation == request.generation,
                resolved.range == request.link.range,
                is_valid_link(self.bytes(), resolved.range),
                link_index(self.lsp.document_links@, request.link, 0) == link_index(
                    self.lsp.document_links@,
                    request.link,
                    i as int,
                ),
            decreases total - i,
        {
            if check_same_link(&self.lsp.document_links[i], &request.link) {
                self.lsp.document_links.set(i, resolved);
                return true;
            }
            i = i + 1;
        }
        false
    }
}

} // verus!

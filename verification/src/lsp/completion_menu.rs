//! The menu of completions.

use crate::chars;
use crate::lsp::completions::{
    completion_context_for_open_menu, completion_trigger_range, completion_word_start,
    context_for_menu, preselected, rank_completion_items, ranked_items, trigger_range, typed_start,
    CompletionContext, CompletionItem, CompletionTriggerKind,
};
use crate::lsp::{bump, next_generation};
use crate::snippet_variables;
use crate::snippet_variables::optional_view;
use crate::state::InputState;
use crate::text;
use std::ops::Range;
use vstd::prelude::*;
use vstd::utf8::*;

verus! {

/// Which item is being resolved, and by which request.
#[derive(Debug, Copy, Clone, PartialEq, Eq, Structural)]
pub struct CompletionResolutionTracker {
    pub generation: u64,
    pub resolving_index: Option<usize>,
}

impl Default for CompletionResolutionTracker {
    fn default() -> (tracker: Self)
        ensures
            tracker == (CompletionResolutionTracker { generation: 0, resolving_index: None }),
    {
        CompletionResolutionTracker { generation: 0, resolving_index: None }
    }
}

impl CompletionResolutionTracker {
    pub fn start(&mut self, index: usize) -> (generation: u64)
        ensures
            generation == next_generation(old(self).generation),
            *final(self) == (CompletionResolutionTracker {
                generation,
                resolving_index: Some(index),
            }),
    {
        self.generation = bump(self.generation);
        self.resolving_index = Some(index);
        self.generation
    }

    pub fn cancel(&mut self)
        ensures
            *final(self) == (CompletionResolutionTracker {
                generation: next_generation(old(self).generation),
                resolving_index: None,
            }),
    {
        self.generation = bump(self.generation);
        self.resolving_index = None;
    }

    /// The request for the item is under way.
    pub open spec fn is_resolving(&self, generation: u64, index: usize) -> bool {
        self.generation == generation && self.resolving_index == Some(index)
    }

    pub fn is_current(&self, generation: u64, index: usize) -> (current: bool)
        ensures
            current == self.is_resolving(generation, index),
    {
        self.generation == generation && match self.resolving_index {
            Some(resolving) => resolving == index,
            None => false,
        }
    }

    /// Notes that the request has come back. Returns whether it was under way.
    pub fn finish(&mut self, generation: u64, index: usize) -> (finished: bool)
        ensures
            finished == old(self).is_resolving(generation, index),
            *final(self) == if finished {
                CompletionResolutionTracker { resolving_index: None, ..*old(self) }
            } else {
                *old(self)
            },
    {
        if !self.is_current(generation, index) {
            return false;
        }
        self.resolving_index = None;
        true
    }
}

/// A request that was started or cancelled over is not under way any more.
pub proof fn law_stale_resolutions_are_refused(
    before: CompletionResolutionTracker,
    after: CompletionResolutionTracker,
    generation: u64,
    index: usize,
)
    requires
        before.is_resolving(generation, index),
        after.generation == next_generation(before.generation),
    ensures
        !after.is_resolving(generation, index),
{
}

/// What one call makes of the tracker: a request is started, dropped or comes
/// back, or nothing changes.
pub open spec fn is_tracked_step(
    before: CompletionResolutionTracker,
    after: CompletionResolutionTracker,
) -> bool {
    ||| after.generation == next_generation(before.generation)
    ||| after == (CompletionResolutionTracker { resolving_index: None, ..before })
    ||| after == before
}

/// What a series of calls makes of the tracker, call by call.
pub open spec fn is_tracked(history: Seq<CompletionResolutionTracker>) -> bool {
    forall|m: int|
        0 < m < history.len() ==> is_tracked_step(history[m - 1], #[trigger] history[m])
}

/// Number of calls behind the one at `i`, up to the one at `k`, that started or
/// dropped a request.
spec fn bumps(history: Seq<CompletionResolutionTracker>, i: int, k: int) -> int
    decreases k - i,
{
    if k <= i {
        0
    } else {
        bumps(history, i, k - 1) + if history[k].generation == history[k - 1].generation {
            0int
        } else {
            1int
        }
    }
}

proof fn lemma_bumps(history: Seq<CompletionResolutionTracker>, i: int, k: int)
    requires
        is_tracked(history),
        0 <= i <= k < history.len(),
        k - i <= u64::MAX,
    ensures
        0 <= bumps(history, i, k) <= k - i,
        history[k].generation == history[i].generation + bumps(history, i, k) || history[k].generation
            == history[i].generation + bumps(history, i, k) - u64::MAX - 1,
        bumps(history, i, k) == 0 ==> history[k].resolving_index == history[i].resolving_index
            || history[k].resolving_index is None,
    decreases k - i,
{
    if i < k {
        lemma_bumps(history, i, k - 1);
        assert(is_tracked_step(history[k - 1], history[k]));
    }
}

/// A request that is not under way any more never is again, whatever is started,
/// dropped or comes back meanwhile: its reply is refused for good. The numbers
/// of the requests come round only after more calls than a `u64` counts.
pub proof fn law_stale_resolutions_stay_refused(
    history: Seq<CompletionResolutionTracker>,
    i: int,
    j: int,
    k: int,
    generation: u64,
    index: usize,
)
    requires
        is_tracked(history),
        0 <= i <= j <= k < history.len() <= u64::MAX,
        history[i].is_resolving(generation, index),
        !history[j].is_resolving(generation, index),
    ensures
        !history[k].is_resolving(generation, index),
{
    lemma_bumps(history, i, k);
    lemma_bumps(history, i, j);
    lemma_bumps(history, j, k);
    lemma_bumps_add(history, i, j, k);
}

proof fn lemma_bumps_add(history: Seq<CompletionResolutionTracker>, i: int, j: int, k: int)
    requires
        0 <= i <= j <= k < history.len(),
    ensures
        bumps(history, i, k) == bumps(history, i, j) + bumps(history, j, k),
    decreases k - j,
{
    if j < k {
        lemma_bumps_add(history, i, j, k - 1);
    }
}

#[derive(Debug, Copy, Clone, PartialEq, Eq, Structural)]
pub enum CompletionMenuMode {
    Completion,
    SnippetChoice,
}

/// A context menu for code completions.
pub struct CompletionMenu {
    pub offset: usize,
    pub open: bool,
    pub incomplete: bool,
    pub mode: CompletionMenuMode,
    /// The offset of the first character that triggered the completion.
    pub trigger_start_offset: Option<usize>,
    pub query: String,
    pub items: Vec<CompletionItem>,
    /// Whether nothing more is to be known of each item.
    pub resolved: Vec<bool>,
    /// The item that is marked in the list, if one is.
    pub selected_index: Option<usize>,
    pub resolution: CompletionResolutionTracker,
}

/// A request to resolve an item.
#[derive(Debug, Copy, Clone, PartialEq, Eq, Structural)]
pub struct CompletionResolveRequest {
    pub generation: u64,
    pub index: usize,
}

/// How an item that is accepted comes to be resolved.
#[derive(Debug, Copy, Clone, PartialEq, Eq, Structural)]
pub enum ResolveStep {
    AlreadyResolved,
    /// The request that is under way brings it.
    AwaitPending,
    Request,
}

/// What accepting the selected item comes to.
#[derive(Debug, PartialEq, Eq)]
pub enum AcceptStep {
    Ignore,
    /// The cursor is before what was typed.
    Dismiss,
    /// The item at the index stands for a choice of a snippet.
    Choose { index: usize },
    Insert { index: usize, range: Range<usize>, resolve: ResolveStep },
}

/// The menu with the request for an item dropped.
pub open spec fn cancelled(menu: CompletionMenu) -> CompletionMenu {
    CompletionMenu {
        resolution: CompletionResolutionTracker {
            generation: next_generation(menu.resolution.generation),
            resolving_index: None,
        },
        ..menu
    }
}

/// The menu when it is hidden.
pub open spec fn hidden(menu: CompletionMenu) -> CompletionMenu {
    CompletionMenu {
        open: false,
        incomplete: false,
        mode: CompletionMenuMode::Completion,
        trigger_start_offset: None,
        ..cancelled(menu)
    }
}

/// The menu offers the items, of which none or all need no more resolving; it
/// is hidden where there are none.
pub open spec fn is_offering(
    before: CompletionMenu,
    after: CompletionMenu,
    offset: usize,
    items: Seq<CompletionItem>,
    resolved: bool,
    incomplete: bool,
) -> bool {
    if items.len() == 0 {
        after == hidden(before)
    } else {
        &&& after == (CompletionMenu {
            offset,
            open: true,
            incomplete,
            items: after.items,
            resolved: after.resolved,
            selected_index: after.selected_index,
            ..before
        })
        &&& after.items@ == items
        &&& after.resolved@ == Seq::new(items.len(), |i: int| resolved)
        &&& after.selected_index matches Some(index) && index == preselected(items, 0)
    }
}

/// A choice of a snippet as a completion.
pub open spec fn is_choice(
    item: CompletionItem,
    choice: Seq<char>,
    index: int,
    current: Seq<char>,
    current_is_choice: bool,
) -> bool {
    &&& item.label@ == choice
    &&& optional_view(item.insert_text) == Some(choice)
    &&& optional_view(item.filter_text) == if current_is_choice {
        Some(current + seq!['_'] + choice)
    } else {
        None
    }
    &&& optional_view(item.sort_text) == Some(
        snippet_variables::padded(chars::decimal(index), 8),
    )
    &&& item.preselect == (choice == current)
    &&& item.commit_characters@.len() == 0
    &&& item.additional_text_edits@.len() == 0
    &&& item == (CompletionItem {
        label_detail: None,
        label_description: None,
        detail: None,
        documentation: None,
        deprecated: false,
        is_snippet: false,
        insert_text_mode: None,
        text_edit: None,
        payload: None,
        ..item
    })
}

pub open spec fn has_choice(choices: Seq<String>, value: Seq<char>) -> bool {
    exists|i: int| 0 <= i < choices.len() && #[trigger] choices[i]@ == value
}

/// The choices of a snippet as completions.
pub open spec fn are_choices(
    items: Seq<CompletionItem>,
    choices: Seq<String>,
    current: Seq<char>,
) -> bool {
    &&& items.len() == choices.len()
    &&& forall|i: int|
        #![trigger items[i]]
        0 <= i < items.len() ==> is_choice(
            items[i],
            choices[i]@,
            i,
            current,
            has_choice(choices, current),
        )
}

/// Whether `value` is among the choices.
pub(crate) fn check_choice(choices: &Vec<String>, value: &str) -> (found: bool)
    ensures
        found == has_choice(choices@, value@),
{
    let mut i: usize = 0;
    while i < choices.len()
        invariant
            i <= choices@.len(),
            forall|k: int| 0 <= k < i ==> #[trigger] choices@[k]@ != value@,
        decreases choices.len() - i,
    {
        if chars::same_text(choices[i].as_str(), value) {
            assert(choices@[i as int]@ == value@);
            return true;
        }
        i = i + 1;
    }
    false
}

/// The choices of a snippet as completions.
pub fn choice_items(choices: &Vec<String>, current_value: &str) -> (items: Vec<CompletionItem>)
    ensures
        are_choices(items@, choices@, current_value@),
{
    let known = check_choice(choices, current_value);
    let mut items: Vec<CompletionItem> = Vec::new();
    let mut i: usize = 0;
    while i < choices.len()
        invariant
            known == has_choice(choices@, current_value@),
            i <= choices@.len(),
            items@.len() == i,
            forall|k: int|
                #![trigger items@[k]]
                0 <= k < i ==> is_choice(items@[k], choices@[k]@, k, current_value@, known),
        decreases choices.len() - i,
    {
        let choice = &choices[i];
        let mut item = CompletionItem::labelled(choice.as_str());
        item.insert_text = Some(choice.clone());
        if known {
            let mut filter = current_value.to_owned();
            chars::push_char(&mut filter, '_');
            assert(filter@ =~= current_value@ + seq!['_']);
            text::push_text(&mut filter, choice.as_str());
            item.filter_text = Some(filter);
        }
        item.sort_text = Some(snippet_variables::pad(chars::to_decimal(i), 8));
        item.preselect = chars::same_text(choice.as_str(), current_value);
        items.push(item);
        i = i + 1;
    }
    items
}

/// The menu offers those choices of a snippet that fit what its place holds.
pub open spec fn is_showing_choices(
    before: CompletionMenu,
    after: CompletionMenu,
    range: Range<usize>,
    current: Seq<char>,
    choices: Seq<String>,
) -> bool {
    &&& after.query@ == current
    &&& exists|items: Seq<CompletionItem>|
        #![trigger are_choices(items, choices, current)]
        are_choices(items, choices, current) && is_offering(
            (CompletionMenu {
                mode: CompletionMenuMode::SnippetChoice,
                trigger_start_offset: Some(range.start),
                query: after.query,
                ..cancelled(before)
            }),
            after,
            range.end,
            ranked_items(items, current),
            true,
            false,
        )
}

/// What was typed between the offsets.
pub open spec fn typed_text(t: Seq<u8>, start: int, end: int) -> Seq<char> {
    decode_utf8(t.subrange(text::floor_boundary(t, start), text::floor_boundary(t, end)))
}

fn same_index(a: Option<usize>, b: Option<usize>) -> (same: bool)
    ensures
        same == (a == b),
{
    match (a, b) {
        (Some(a), Some(b)) => a == b,
        (None, None) => true,
        _ => false,
    }
}

impl CompletionMenu {
    pub fn new() -> (menu: Self)
        ensures
            !menu.open,
            !menu.incomplete,
            menu.mode is Completion,
            menu.trigger_start_offset is None,
            menu.items@.len() == 0,
            menu.resolved@.len() == 0,
            menu.selected_index is None,
            menu.query@.len() == 0,
            menu.offset == 0,
            menu.resolution == (CompletionResolutionTracker {
                generation: 0,
                resolving_index: None,
            }),
    {
        CompletionMenu {
            offset: 0,
            open: false,
            incomplete: false,
            mode: CompletionMenuMode::Completion,
            trigger_start_offset: None,
            query: String::new(),
            items: Vec::new(),
            resolved: Vec::new(),
            selected_index: None,
            resolution: CompletionResolutionTracker::default(),
        }
    }

    fn cancel_completion_resolution(&mut self)
        ensures
            *final(self) == cancelled(*old(self)),
    {
        self.resolution.cancel();
    }

    /// Hide the completion menu and reset the trigger start offset.
    pub fn dismiss(&mut self)
        ensures
            *final(self) == hidden(*old(self)),
    {
        self.cancel_completion_resolution();
        self.open = false;
        self.incomplete = false;
        self.mode = CompletionMenuMode::Completion;
        self.trigger_start_offset = None;
    }

    pub fn is_open(&self) -> (open: bool)
        ensures
            open == self.open,
    {
        self.open
    }

    pub fn is_incomplete(&self) -> (incomplete: bool)
        ensures
            incomplete == (self.open && self.incomplete),
    {
        self.open && self.incomplete
    }

    pub fn is_snippet_choice(&self) -> (choice: bool)
        ensures
            choice == (self.open && self.mode is SnippetChoice),
    {
        self.open && self.mode == CompletionMenuMode::SnippetChoice
    }

    /// Takes a query. The offset where it starts is set if it is not yet.
    pub fn update_query(&mut self, start_offset: usize, query: String)
        ensures
            *final(self) == (CompletionMenu {
                trigger_start_offset: if old(self).trigger_start_offset is Some {
                    old(self).trigger_start_offset
                } else {
                    Some(start_offset)
                },
                query,
                ..if old(self).query@ == query@ {
                    *old(self)
                } else {
                    cancelled(*old(self))
                }
            }),
    {
        if !chars::same_text(self.query.as_str(), query.as_str()) {
            self.cancel_completion_resolution();
        }
        if self.trigger_start_offset.is_none() {
            self.trigger_start_offset = Some(start_offset);
        }
        self.query = query;
    }

    /// Starts a query.
    pub fn begin_query(&mut self, start_offset: usize, query: String)
        ensures
            *final(self) == (CompletionMenu {
                mode: CompletionMenuMode::Completion,
                trigger_start_offset: Some(start_offset),
                query,
                ..cancelled(*old(self))
            }),
    {
        self.cancel_completion_resolution();
        self.mode = CompletionMenuMode::Completion;
        self.trigger_start_offset = Some(start_offset);
        self.query = query;
    }

    fn show_ranked(
        &mut self,
        offset: usize,
        items: Vec<CompletionItem>,
        selected_index: usize,
        resolved: bool,
        incomplete: bool,
    )
        requires
            selected_index == preselected(items@, 0),
        ensures
            is_offering(*old(self), *final(self), offset, items@, resolved, incomplete),
    {
        if items.len() == 0 {
            self.dismiss();
            return;
        }
        let mut flags: Vec<bool> = Vec::new();
        let mut i: usize = 0;
        while i < items.len()
            invariant
                i <= items@.len(),
                flags@ =~= Seq::new(i as nat, |k: int| resolved),
            decreases items.len() - i,
        {
            flags.push(resolved);
            i = i + 1;
        }
        self.offset = offset;
        self.open = true;
        self.incomplete = incomplete;
        self.items = items;
        self.resolved = flags;
        self.selected_index = Some(selected_index);
    }

    /// Offers the items that fit the query.
    pub fn show(&mut self, offset: usize, items: Vec<CompletionItem>, incomplete: bool)
        ensures
            is_offering(
                (CompletionMenu {
                    mode: CompletionMenuMode::Completion,
                    ..cancelled(*old(self))
                }),
                *final(self),
                offset,
                ranked_items(items@, old(self).query@),
                false,
                incomplete,
            ),
    {
        self.cancel_completion_resolution();
        self.mode = CompletionMenuMode::Completion;
        let (ranked, selected_index) = rank_completion_items(items, self.query.as_str());
        self.show_ranked(offset, ranked, selected_index, false, incomplete);
    }

    /// Offers the choices of a snippet that fit what its place holds.
    pub fn show_snippet_choices(
        &mut self,
        range: Range<usize>,
        current_value: &str,
        choices: &Vec<String>,
    )
        ensures
            is_showing_choices(*old(self), *final(self), range, current_value@, choices@),
    {
        self.cancel_completion_resolution();
        self.mode = CompletionMenuMode::SnippetChoice;
        self.trigger_start_offset = Some(range.start);
        self.query = current_value.to_owned();
        let items = choice_items(choices, current_value);
        let (ranked, selected_index) = rank_completion_items(items, current_value);
        self.show_ranked(range.end, ranked, selected_index, true, false);
    }

    /// Nothing more is to be known of the item.
    pub open spec fn is_resolved(&self, index: int) -> bool {
        index < self.resolved@.len() && self.resolved@[index]
    }

    /// Asks to resolve the selected item, once while it stays selected. Another
    /// selection, or that of no item, drops the request for the item before.
    pub fn resolve_selected_item(&mut self, requested_index: Option<usize>) -> (request: Option<
        CompletionResolveRequest,
    >)
        ensures
            if old(self).mode is SnippetChoice {
                request is None && *final(self) == cancelled(*old(self))
            } else if !old(self).open || requested_index != old(self).selected_index {
                request is None && *final(self) == *old(self)
            } else {
                match requested_index {
                    None => request is None && *final(self) == cancelled(*old(self)),
                    Some(index) => if index >= old(self).items@.len() {
                        request is None && *final(self) == *old(self)
                    } else if old(self).is_resolved(index as int) {
                        request is None && *final(self) == cancelled(*old(self))
                    } else if old(self).resolution.resolving_index == Some(index) {
                        request is None && *final(self) == *old(self)
                    } else {
                        let generation = next_generation(
                            next_generation(old(self).resolution.generation),
                        );
                        &&& request == Some(CompletionResolveRequest { generation, index })
                        &&& *final(self) == (CompletionMenu {
                            resolution: CompletionResolutionTracker {
                                generation,
                                resolving_index: Some(index),
                            },
                            ..*old(self)
                        })
                    },
                }
            },
    {
        if self.mode == CompletionMenuMode::SnippetChoice {
            self.cancel_completion_resolution();
            return None;
        }
        if !self.open || !same_index(self.selected_index, requested_index) {
            return None;
        }
        let index: usize = match requested_index {
            Some(index) => index,
            None => {
                self.cancel_completion_resolution();
                return None;
            },
        };
        if index >= self.items.len() {
            return None;
        }
        if index < self.resolved.len() && self.resolved[index] {
            self.cancel_completion_resolution();
            return None;
        }
        if same_index(self.resolution.resolving_index, Some(index)) {
            return None;
        }
        self.cancel_completion_resolution();
        let generation: u64 = self.resolution.start(index);
        Some(CompletionResolveRequest { generation, index })
    }

    /// The reply to a request to resolve an item is still wanted.
    pub open spec fn awaits(&self, request: CompletionResolveRequest) -> bool {
        &&& self.open
        &&& self.resolution.is_resolving(request.generation, request.index)
        &&& self.selected_index == Some(request.index)
    }

    /// Takes a resolved item in place of the one that was asked for, if that is
    /// still there.
    pub fn receive_resolved_item(&mut self, request: CompletionResolveRequest, item: CompletionItem) -> (taken:
        bool)
        ensures
            taken == old(self).awaits(request),
            !taken ==> *final(self) == *old(self),
            taken ==> {
                let index = request.index as int;
                &&& *final(self) == (CompletionMenu {
                    items: final(self).items,
                    resolved: final(self).resolved,
                    resolution: CompletionResolutionTracker {
                        resolving_index: None,
                        ..old(self).resolution
                    },
                    ..*old(self)
                })
                &&& if index < old(self).items@.len() && index < old(self).resolved@.len() {
                    &&& final(self).items@ == old(self).items@.update(index, item)
                    &&& final(self).resolved@ == old(self).resolved@.update(index, true)
                } else {
                    &&& final(self).items == old(self).items
                    &&& final(self).resolved == old(self).resolved
                }
            },
    {
        if !self.open || !self.resolution.is_current(request.generation, request.index)
            || !same_index(self.selected_index, Some(request.index)) {
            return false;
        }
        if request.index < self.items.len() && request.index < self.resolved.len() {
            self.items.set(request.index, item);
            self.resolved.set(request.index, true);
        }
        self.resolution.finish(request.generation, request.index);
        true
    }

    /// The item that is accepted: the first where none is marked.
    pub open spec fn accepted_index(&self) -> usize {
        match self.selected_index {
            Some(index) => index,
            None => 0,
        }
    }

    fn find_accepted_index(&self) -> (index: usize)
        ensures
            index == self.accepted_index(),
    {
        match self.selected_index {
            Some(index) => index,
            None => 0,
        }
    }

    /// What accepting the selected item with the cursor there comes to.
    pub open spec fn accept_step(&self, cursor: usize, step: AcceptStep) -> bool {
        let index = self.accepted_index();
        if index >= self.items@.len() {
            step == AcceptStep::Ignore
        } else if self.mode is SnippetChoice {
            step == (AcceptStep::Choose { index })
        } else {
            match trigger_range(self.trigger_start_offset, self.offset, cursor) {
                None => step == AcceptStep::Dismiss,
                Some(range) => step == (AcceptStep::Insert {
                    index,
                    range: Range { start: range.0 as usize, end: range.1 as usize },
                    resolve: if self.is_resolved(index as int) {
                        ResolveStep::AlreadyResolved
                    } else if self.resolution.resolving_index is Some
                        && self.resolution.resolving_index == self.selected_index {
                        ResolveStep::AwaitPending
                    } else {
                        ResolveStep::Request
                    },
                }),
            }
        }
    }

    /// Accepts the selected item, which hides the menu.
    pub fn accept_selected(&mut self, cursor: usize) -> (step: AcceptStep)
        ensures
            old(self).accept_step(cursor, step),
            *final(self) == if old(self).accepted_index() >= old(self).items@.len() {
                *old(self)
            } else {
                hidden(*old(self))
            },
    {
        let index: usize = self.find_accepted_index();
        if index >= self.items.len() {
            return AcceptStep::Ignore;
        }
        let step = if self.mode == CompletionMenuMode::SnippetChoice {
            AcceptStep::Choose { index }
        } else {
            match completion_trigger_range(self.trigger_start_offset, self.offset, cursor) {
                None => AcceptStep::Dismiss,
                Some(range) => {
                    let pending = self.resolution.resolving_index.is_some() && same_index(
                        self.resolution.resolving_index,
                        self.selected_index,
                    );
                    let resolve = if index < self.resolved.len() && self.resolved[index] {
                        ResolveStep::AlreadyResolved
                    } else if pending {
                        ResolveStep::AwaitPending
                    } else {
                        ResolveStep::Request
                    };
                    AcceptStep::Insert { index, range, resolve }
                },
            }
        };
        self.dismiss();
        step
    }

    /// Whether typing the character accepts the selected item.
    pub open spec fn commits(&self, character: Seq<char>) -> bool {
        self.open && character.len() == 1 && self.accepted_index() < self.items@.len()
            && has_choice(
            self.items@[self.accepted_index() as int].commit_characters@,
            character,
        )
    }

    /// Accepts the selected item where typing the character does so.
    pub fn accept_commit_character(&mut self, character: &str, cursor: usize) -> (step: Option<
        AcceptStep,
    >)
        ensures
            old(self).commits(character@) ==> step is Some && old(self).accept_step(
                cursor,
                step->Some_0,
            ) && *final(self) == hidden(*old(self)),
            !old(self).commits(character@) ==> step is None && *final(self) == *old(self),
    {
        let index: usize = self.find_accepted_index();
        if !self.open || chars::chars_of(character).len() != 1 || index >= self.items.len() {
            return None;
        }
        if !check_choice(&self.items[index].commit_characters, character) {
            return None;
        }
        Some(self.accept_selected(cursor))
    }

    /// Starts or goes on with a query after a change of the text. Returns why
    /// completions are to be asked for at the cursor, if they are.
    pub fn handle_completion_trigger(
        &mut self,
        state: &InputState,
        context: Option<CompletionContext>,
        new_text: &str,
    ) -> (request: Option<CompletionContext>)
        ensures
            ({
                let cursor = state.primary().spec_head();
                let asked = context_for_menu(
                    context,
                    old(self).open,
                    old(self).open && old(self).incomplete,
                    new_text@,
                );
                let start = match old(self).trigger_start_offset {
                    Some(start) => start as int,
                    None => typed_start(state.bytes(), cursor as int),
                };
                if asked is None {
                    request is None && *final(self) == if old(self).open {
                        hidden(*old(self))
                    } else {
                        *old(self)
                    }
                } else if cursor < start {
                    request is None && *final(self) == hidden(*old(self))
                } else {
                    &&& request == asked
                    &&& final(self).query@ == typed_text(state.bytes(), start, cursor as int)
                    &&& *final(self) == (CompletionMenu {
                        trigger_start_offset: Some(start as usize),
                        query: final(self).query,
                        ..if old(self).query@ == final(self).query@ {
                            *old(self)
                        } else {
                            cancelled(*old(self))
                        }
                    })
                }
            }),
    {
        let asked = completion_context_for_open_menu(
            context,
            self.is_open(),
            self.is_incomplete(),
            new_text,
        );
        if asked.is_none() {
            if self.open {
                self.dismiss();
            }
            return None;
        }
        let document = state.document();
        let cursor: usize = state.cursor();
        let start: usize = match self.trigger_start_offset {
            Some(start) => start,
            None => completion_word_start(&document, cursor),
        };
        if cursor < start {
            self.dismiss();
            return None;
        }
        let query = read_typed(state, start, cursor);
        self.update_query(start, query);
        asked
    }

    /// Starts a query with the word at the cursor, on command. Returns why
    /// completions are to be asked for, if they are.
    pub fn trigger_completion(&mut self, state: &InputState) -> (request: Option<CompletionContext>)
        ensures
            state.disabled ==> request is None && *final(self) == *old(self),
            !state.disabled ==> {
                let cursor = state.primary().spec_head() as int;
                let start = typed_start(state.bytes(), cursor);
                &&& request == Some(
                    CompletionContext {
                        trigger_kind: CompletionTriggerKind::Invoked,
                        trigger_character: None,
                    },
                )
                &&& final(self).query@ == typed_text(state.bytes(), start, cursor)
                &&& *final(self) == (CompletionMenu {
                    mode: CompletionMenuMode::Completion,
                    trigger_start_offset: Some(start as usize),
                    query: final(self).query,
                    ..cancelled(*old(self))
                })
            },
    {
        if state.disabled {
            return None;
        }
        let document = state.document();
        let cursor: usize = state.cursor();
        let start: usize = completion_word_start(&document, cursor);
        let query = read_typed(state, start, cursor);
        self.begin_query(start, query);
        Some(
            CompletionContext {
                trigger_kind: CompletionTriggerKind::Invoked,
                trigger_character: None,
            },
        )
    }

    /// Takes the completions that were asked for at `offset`, while the cursor
    /// is still there.
    pub fn receive_completions(
        &mut self,
        state: &InputState,
        focused: bool,
        offset: usize,
        items: Vec<CompletionItem>,
        incomplete: bool,
    )
        ensures
            if items@.len() == 0 {
                *final(self) == hidden(*old(self))
            } else if !focused || state.primary().spec_head() != offset {
                *final(self) == *old(self)
            } else {
                is_offering(
                    (CompletionMenu {
                        mode: CompletionMenuMode::Completion,
                        ..cancelled(*old(self))
                    }),
                    *final(self),
                    offset,
                    ranked_items(items@, old(self).query@),
                    false,
                    incomplete,
                )
            },
    {
        if items.len() == 0 {
            self.dismiss();
            return;
        }
        if !focused || state.cursor() != offset {
            return;
        }
        self.show(offset, items, incomplete);
    }
}

/// What was typed between the offsets.
fn read_typed(state: &InputState, start: usize, end: usize) -> (typed: String)
    requires
        start <= end,
    ensures
        typed@ == typed_text(state.bytes(), start as int, end as int),
{
    let document = state.document();
    let from: usize = document.clip_left(start);
    let to: usize = document.clip_left(end);
    proof {
        text::lemma_floor_monotonic(state.bytes(), start as int, end as int);
        text::lemma_floor_boundary(state.bytes(), start as int);
        text::lemma_floor_boundary(state.bytes(), end as int);
    }
    let typed = document.slice(from, to);
    proof {
        encode_utf8_decode_utf8(typed@);
    }
    typed
}

} // verus!

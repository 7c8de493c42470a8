//! Code actions for the selection.

use crate::chars;
use crate::lsp::items;
use crate::lsp::{bump, next_generation, Lsp};
use crate::state::InputState;
use std::ops::Range;
use vstd::prelude::*;

verus! {

#[derive(Clone, Copy, Debug, PartialEq, Eq, Structural)]
pub enum CodeActionTrigger {
    Invoked,
    Automatic,
}

impl Default for CodeActionTrigger {
    fn default() -> (trigger: Self)
        ensures
            trigger is Invoked,
    {
        CodeActionTrigger::Invoked
    }
}

/// A change that a server offers.
#[derive(Debug, Clone, PartialEq, Eq)]
pub struct CodeAction {
    pub title: String,
    /// Why it cannot be applied now.
    pub disabled: Option<String>,
    /// The rest of the action, as the server wrote it.
    pub payload: String,
}

/// An action and who offers it.
#[derive(Debug, Clone, PartialEq, Eq)]
pub struct CodeActionItem {
    pub provider_id: String,
    pub action: CodeAction,
}

/// A request for actions, by its generation and the selection it is for.
#[derive(Debug, PartialEq, Eq)]
pub struct CodeActionRequest {
    pub generation: u64,
    pub range: Range<usize>,
}

/// What the menu of code actions does once the actions are there.
#[derive(Debug, Clone, PartialEq, Eq)]
pub enum CodeActionMenuStep {
    Hide,
    Keep,
    Show { offset: usize, actions: Vec<CodeActionItem> },
}

/// Whether an action is offered.
pub open spec fn is_offered(action: CodeAction, trigger: CodeActionTrigger) -> bool {
    trigger is Invoked || action.disabled is None
}

/// The offered ones of the first `n` actions.
pub open spec fn offered(
    id: String,
    actions: Seq<CodeAction>,
    trigger: CodeActionTrigger,
    n: int,
) -> Seq<CodeActionItem>
    decreases n,
{
    if n <= 0 {
        Seq::empty()
    } else if is_offered(actions[n - 1], trigger) {
        offered(id, actions, trigger, n - 1).push(
            CodeActionItem { provider_id: id, action: actions[n - 1] },
        )
    } else {
        offered(id, actions, trigger, n - 1)
    }
}

/// What the first `n` providers offer. One that failed offers nothing.
pub open spec fn gathered(
    responses: Seq<(String, Option<Vec<CodeAction>>)>,
    trigger: CodeActionTrigger,
    n: int,
) -> Seq<CodeActionItem>
    decreases n,
{
    if n <= 0 {
        Seq::empty()
    } else {
        gathered(responses, trigger, n - 1) + match responses[n - 1].1 {
            Some(actions) => offered(
                responses[n - 1].0,
                actions@,
                trigger,
                actions@.len() as int,
            ),
            None => Seq::empty(),
        }
    }
}

fn offer(
    items: &mut Vec<CodeActionItem>,
    id: String,
    actions: Vec<CodeAction>,
    trigger: CodeActionTrigger,
)
    ensures
        final(items)@ == old(items)@ + offered(id, actions@, trigger, actions@.len() as int),
{
    let ghost before = items@;
    let ghost all = actions@;
    let mut flags: Vec<bool> = Vec::new();
    let mut i: usize = 0;
    while i < actions.len()
        invariant
            i <= actions@.len(),
            all == actions@,
            flags@.len() == i,
            forall|k: int| 0 <= k < i ==> #[trigger] flags@[k] == is_offered(all[k], trigger),
        decreases actions.len() - i,
    {
        flags.push(
            match trigger {
                CodeActionTrigger::Invoked => true,
                CodeActionTrigger::Automatic => actions[i].disabled.is_none(),
            },
        );
        i = i + 1;
    }
    let kept = items::keep_flagged(&flags);
    proof {
        items::lemma_flagged(flags@, flags@.len() as int);
        lemma_offered(id, all, trigger, flags@, all.len() as int);
    }
    let mut rest = items::pick(actions, &kept);
    let ghost chosen = rest@;
    while rest.len() > 0
        invariant
            rest@.len() <= chosen.len(),
            rest@ == chosen.skip(chosen.len() - rest@.len()),
            items@ == before + labelled(id, chosen, chosen.len() - rest@.len()),
        decreases rest.len(),
    {
        let ghost n = chosen.len() - rest@.len();
        let action = rest.remove(0);
        assert(action == chosen[n]);
        items.push(CodeActionItem { provider_id: id.clone(), action });
        assert(items@ =~= before + labelled(id, chosen, n + 1));
        assert(rest@ =~= chosen.skip(n + 1));
    }
    assert(items@ =~= before + offered(id, all, trigger, all.len() as int));
}

/// The first `n` actions under the name of their provider.
pub open spec fn labelled(id: String, actions: Seq<CodeAction>, n: int) -> Seq<CodeActionItem> {
    Seq::new(n as nat, |i: int| CodeActionItem { provider_id: id, action: actions[i] })
}

proof fn lemma_offered(
    id: String,
    actions: Seq<CodeAction>,
    trigger: CodeActionTrigger,
    flags: Seq<bool>,
    n: int,
)
    requires
        0 <= n <= actions.len(),
        n <= flags.len(),
        forall|k: int| 0 <= k < n ==> #[trigger] flags[k] == is_offered(actions[k], trigger),
    ensures
        offered(id, actions, trigger, n) == labelled(
            id,
            items::picked(actions, items::flagged(flags, n)),
            items::flagged(flags, n).len() as int,
        ),
    decreases n,
{
    if n > 0 {
        lemma_offered(id, actions, trigger, flags, n - 1);
        assert(flags[n - 1] == is_offered(actions[n - 1], trigger));
    }
    assert(offered(id, actions, trigger, n) =~= labelled(
        id,
        items::picked(actions, items::flagged(flags, n)),
        items::flagged(flags, n).len() as int,
    ));
}

/// What the providers offer, in their order. A provider that failed gave none.
pub fn gather_code_actions(
    responses: Vec<(String, Option<Vec<CodeAction>>)>,
    trigger: CodeActionTrigger,
) -> (items: Vec<CodeActionItem>)
    ensures
        items@ == gathered(responses@, trigger, responses@.len() as int),
{
    let ghost all = responses@;
    let mut rest = responses;
    let mut items: Vec<CodeActionItem> = Vec::new();
    while rest.len() > 0
        invariant
            rest@.len() <= all.len(),
            rest@ == all.skip(all.len() - rest@.len()),
            items@ == gathered(all, trigger, all.len() - rest@.len()),
        decreases rest.len(),
    {
        let ghost n = all.len() - rest@.len();
        let (id, response) = rest.remove(0);
        assert(all[n] == (id, response));
        assert(rest@ =~= all.skip(n + 1));
        match response {
            Some(actions) => {
                offer(&mut items, id, actions, trigger);
            },
            None => {
                assert(gathered(all, trigger, n + 1) =~= gathered(all, trigger, n));
            },
        }
    }
    items
}

/// The first of the first providers that has the name.
pub open spec fn provider_index(ids: Seq<String>, id: Seq<char>, from: int) -> Option<int>
    decreases ids.len() - from,
{
    if from >= ids.len() {
        None
    } else if ids[from]@ == id {
        Some(from)
    } else {
        provider_index(ids, id, from + 1)
    }
}

/// The provider that performs an action: the first with its name.
pub fn find_code_action_provider(ids: &Vec<String>, item: &CodeActionItem) -> (found: Option<
    usize,
>)
    ensures
        match found {
            Some(index) => provider_index(ids@, item.provider_id@, 0) == Some(index as int),
            None => provider_index(ids@, item.provider_id@, 0) is None,
        },
{
    let mut i: usize = 0;
    while i < ids.len()
        invariant
            i <= ids@.len(),
            provider_index(ids@, item.provider_id@, 0) == provider_index(
                ids@,
                item.provider_id@,
                i as int,
            ),
        decreases ids.len() - i,
    {
        if chars::same_text(ids[i].as_str(), item.provider_id.as_str()) {
            return Some(i);
        }
        i = i + 1;
    }
    None
}

fn same_range(a: &Range<usize>, b: &Range<usize>) -> (same: bool)
    ensures
        same == (*a == *b),
{
    a.start == b.start && a.end == b.end
}

/// No automatic actions, and a generation that no request has.
pub open spec fn without_code_actions(before: Lsp, after: Lsp) -> bool {
    &&& after == (Lsp {
        code_action_generation: next_generation(before.code_action_generation),
        automatic_code_actions: after.automatic_code_actions,
        automatic_code_action_range: None,
        automatic_code_action_requested_range: None,
        ..before
    })
    &&& after.automatic_code_actions@.len() == 0
}

impl Lsp {
    /// Drops the automatic actions, and the reply to any request for them.
    pub fn invalidate_automatic_code_actions(&mut self)
        ensures
            without_code_actions(*old(self), *final(self)),
    {
        self.code_action_generation = bump(self.code_action_generation);
        self.automatic_code_actions = Vec::new();
        self.automatic_code_action_range = None;
        self.automatic_code_action_requested_range = None;
    }
}

impl InputState {
    /// The selection that code actions are for.
    pub open spec fn action_range(&self) -> Range<usize> {
        Range { start: self.selected_range.start, end: self.selected_range.end }
    }

    fn code_action_range(&self) -> (range: Range<usize>)
        ensures
            range == self.action_range(),
    {
        Range { start: self.selected_range.start, end: self.selected_range.end }
    }

    /// Code actions may be asked for without a command.
    pub open spec fn wants_code_actions(&self, has_providers: bool, focused: bool) -> bool {
        !self.disabled && self.mode is CodeEditor && has_providers && focused
    }

    /// Whether a request for code actions is still for this selection.
    pub open spec fn is_current_request(&self, request: CodeActionRequest) -> bool {
        self.lsp.code_action_generation == request.generation && self.action_range()
            == request.range
    }

    /// Asks for actions for a selection that none were asked for. The request
    /// is sent after a delay, if it is still current then.
    pub fn refresh_automatic_code_actions(&mut self, has_providers: bool, focused: bool) -> (request:
        Option<CodeActionRequest>)
        ensures
            !old(self).wants_code_actions(has_providers, focused) ==> request is None
                && without_code_actions(old(self).lsp, final(self).lsp) && *final(self) == (
            InputState { lsp: final(self).lsp, ..*old(self) }),
            old(self).wants_code_actions(has_providers, focused) && old(
                self,
            ).lsp.automatic_code_action_requested_range == Some(old(self).action_range())
                ==> request is None && *final(self) == *old(self),
            old(self).wants_code_actions(has_providers, focused) && old(
                self,
            ).lsp.automatic_code_action_requested_range != Some(old(self).action_range()) ==> {
                &&& request == Some(
                    CodeActionRequest {
                        generation: next_generation(old(self).lsp.code_action_generation),
                        range: old(self).action_range(),
                    },
                )
                &&& final(self).is_current_request(request->Some_0)
                &&& final(self).lsp.automatic_code_actions@.len() == 0
                &&& *final(self) == (InputState {
                    lsp: Lsp {
                        code_action_generation: next_generation(
                            old(self).lsp.code_action_generation,
                        ),
                        automatic_code_actions: final(self).lsp.automatic_code_actions,
                        automatic_code_action_range: None,
                        automatic_code_action_requested_range: Some(old(self).action_range()),
                        ..old(self).lsp
                    },
                    ..*old(self)
                })
            },
    {
        if self.disabled || !self.mode.is_code_editor() || !has_providers || !focused {
            self.lsp.invalidate_automatic_code_actions();
            return None;
        }
        let range = self.code_action_range();
        if let Some(requested) = &self.lsp.automatic_code_action_requested_range {
            if same_range(requested, &range) {
                return None;
            }
        }
        self.lsp.invalidate_automatic_code_actions();
        self.lsp.automatic_code_action_requested_range = Some(self.code_action_range());
        Some(CodeActionRequest { generation: self.lsp.code_action_generation, range })
    }

    /// Whether a request whose delay is over is to be sent.
    pub fn should_send_code_action_request(&self, request: &CodeActionRequest, focused: bool) -> (send:
        bool)
        ensures
            send == (self.is_current_request(*request) && focused),
    {
        self.lsp.code_action_generation == request.generation && same_range(
            &self.code_action_range(),
            &request.range,
        ) && focused
    }

    /// Takes the actions that a request brought, if it is still current.
    pub fn receive_automatic_code_actions(
        &mut self,
        request: &CodeActionRequest,
        actions: Vec<CodeActionItem>,
    ) -> (taken: bool)
        ensures
            taken == old(self).is_current_request(*request),
            !taken ==> *final(self) == *old(self),
            taken ==> *final(self) == (InputState {
                lsp: Lsp {
                    automatic_code_actions: actions,
                    automatic_code_action_range: Some(request.range),
                    ..old(self).lsp
                },
                ..*old(self)
            }),
    {
        if self.lsp.code_action_generation != request.generation || !same_range(
            &self.code_action_range(),
            &request.range,
        ) {
            return false;
        }
        self.lsp.automatic_code_actions = actions;
        self.lsp.automatic_code_action_range = Some(self.code_action_range());
        true
    }

    /// Starts a request on command. Returns the selection that it is for.
    pub fn handle_code_action_trigger(&mut self) -> (range: Range<usize>)
        ensures
            range == old(self).action_range(),
            without_code_actions(old(self).lsp, final(self).lsp),
            *final(self) == (InputState { lsp: final(self).lsp, ..*old(self) }),
    {
        self.lsp.invalidate_automatic_code_actions();
        self.code_action_range()
    }

    /// What the menu does with the actions that a command brought.
    pub fn code_action_menu_step(&self, actions: Vec<CodeActionItem>, focused: bool) -> (step:
        CodeActionMenuStep)
        ensures
            step == if actions@.len() == 0 {
                CodeActionMenuStep::Hide
            } else if !focused {
                CodeActionMenuStep::Keep
            } else {
                CodeActionMenuStep::Show { offset: self.primary().spec_head(), actions }
            },
    {
        if actions.len() == 0 {
            return CodeActionMenuStep::Hide;
        }
        if !focused {
            return CodeActionMenuStep::Keep;
        }
        CodeActionMenuStep::Show { offset: self.cursor(), actions }
    }

    pub fn invalidate_code_actions(&mut self)
        ensures
            without_code_actions(old(self).lsp, final(self).lsp),
            *final(self) == (InputState { lsp: final(self).lsp, ..*old(self) }),
    {
        self.lsp.invalidate_automatic_code_actions();
    }

    pub fn automatic_code_actions(&self) -> (actions: Vec<CodeAction>)
        ensures
            actions@ == Seq::new(
                self.lsp.automatic_code_actions@.len(),
                |i: int| self.lsp.automatic_code_actions@[i].action,
            ),
    {
        let mut actions: Vec<CodeAction> = Vec::new();
        let mut i: usize = 0;
        while i < self.lsp.automatic_code_actions.len()
            invariant
                i <= self.lsp.automatic_code_actions@.len(),
                actions@ =~= Seq::new(
                    i as nat,
                    |k: int| self.lsp.automatic_code_actions@[k].action,
                ),
            decreases self.lsp.automatic_code_actions.len() - i,
        {
            let action = &self.lsp.automatic_code_actions[i].action;
            let disabled = match &action.disabled {
                Some(reason) => Some(reason.clone()),
                None => None,
            };
            actions.push(
                CodeAction {
                    title: action.title.clone(),
                    disabled,
                    payload: action.payload.clone(),
                },
            );
            i = i + 1;
        }
        actions
    }

    pub fn automatic_code_action_range(&self) -> (range: Option<Range<usize>>)
        ensures
            range == self.lsp.automatic_code_action_range,
    {
        match &self.lsp.automatic_code_action_range {
            Some(range) => Some(Range { start: range.start, end: range.end }),
            None => None,
        }
    }

    /// Where the menu of the automatic actions opens, if there are any.
    pub fn open_automatic_code_actions(&self) -> (offset: Option<usize>)
        ensures
            offset == if self.lsp.automatic_code_actions@.len() == 0 {
                None::<usize>
            } else {
                Some(
                    match self.lsp.automatic_code_action_range {
                        Some(range) => range.end,
                        None => self.primary().spec_head(),
                    },
                )
            },
    {
        if self.lsp.automatic_code_actions.len() == 0 {
            return None;
        }
        match &self.lsp.automatic_code_action_range {
            Some(range) => Some(range.end),
            None => Some(self.cursor()),
        }
    }

    /// Whether the selection shows that there are actions for it.
    pub fn shows_code_action_indicator(&self) -> (shown: bool)
        ensures
            shown == (self.lsp.automatic_code_actions@.len() > 0
                && self.lsp.automatic_code_action_range == Some(self.action_range())),
    {
        if self.lsp.automatic_code_actions.len() == 0 {
            return false;
        }
        match &self.lsp.automatic_code_action_range {
            Some(range) => same_range(range, &self.code_action_range()),
            None => false,
        }
    }
}

/// Once the actions are dropped, no request from before brings any.
pub proof fn law_dropped_code_actions_stay_dropped(
    before: InputState,
    after: InputState,
    request: CodeActionRequest,
)
    requires
        before.is_current_request(request),
        without_code_actions(before.lsp, after.lsp),
    ensures
        !after.is_current_request(request),
{
}

} // verus!

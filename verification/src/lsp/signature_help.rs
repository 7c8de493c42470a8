//! Parameter hints: the signatures of the call at the cursor.

use crate::bytes;
use crate::chars;
use crate::lsp::inlay_hints::Tooltip;
use crate::lsp::items;
use crate::lsp::{bump, next_generation, Lsp};
use crate::pairs;
use crate::snippet_variables::optional_view;
use crate::state::InputState;
use crate::text;
use crate::text::Document;
use std::ops::Range;
use vstd::prelude::*;
use vstd::utf8::*;

verus! {

pub const MAX_SIGNATURES: usize = 100;

pub const MAX_PARAMETERS: usize = 256;

pub const MAX_SIGNATURE_LABEL_CHARS: usize = 8_192;

pub const MAX_DOCUMENTATION_CHARS: usize = 16_384;

/// How long hints wait for more to be typed, in milliseconds.
pub const SIGNATURE_HELP_DELAY: u64 = 120;

/// How a parameter is found in the label of its signature.
#[derive(Debug, Clone, PartialEq, Eq)]
pub enum ParameterLabel {
    /// By its own label.
    Simple { label: String },
    /// By offsets in UTF-16 units.
    Offsets { start: u32, end: u32 },
}

#[derive(Debug, Clone, PartialEq, Eq)]
pub struct ParameterInformation {
    pub label: ParameterLabel,
    pub documentation: Option<Tooltip>,
}

#[derive(Debug, Clone, PartialEq, Eq)]
pub struct SignatureInformation {
    pub label: String,
    pub documentation: Option<Tooltip>,
    pub parameters: Option<Vec<ParameterInformation>>,
    pub active_parameter: Option<u32>,
}

#[derive(Debug, Clone, PartialEq, Eq)]
pub struct SignatureHelp {
    pub signatures: Vec<SignatureInformation>,
    pub active_signature: Option<u32>,
    pub active_parameter: Option<u32>,
}

/// A signature as plain values.
pub struct SignatureModel {
    pub label: String,
    pub documentation: Option<Tooltip>,
    pub parameters: Option<Seq<ParameterInformation>>,
    pub active_parameter: Option<u32>,
}

/// Signatures as plain values.
pub struct HelpModel {
    pub signatures: Seq<SignatureModel>,
    pub active_signature: Option<u32>,
    pub active_parameter: Option<u32>,
}

impl View for SignatureInformation {
    type V = SignatureModel;

    open spec fn view(&self) -> SignatureModel {
        SignatureModel {
            label: self.label,
            documentation: self.documentation,
            parameters: match self.parameters {
                Some(parameters) => Some(parameters@),
                None => None,
            },
            active_parameter: self.active_parameter,
        }
    }
}

pub open spec fn signatures_view(signatures: Seq<SignatureInformation>) -> Seq<SignatureModel> {
    Seq::new(signatures.len(), |i: int| signatures[i]@)
}

impl View for SignatureHelp {
    type V = HelpModel;

    open spec fn view(&self) -> HelpModel {
        HelpModel {
            signatures: signatures_view(self.signatures@),
            active_signature: self.active_signature,
            active_parameter: self.active_parameter,
        }
    }
}

/// The hints that are shown, and where.
pub struct SignatureHelpPopover {
    pub anchor_offset: usize,
    pub help: SignatureHelp,
}

#[derive(Debug, Copy, Clone, PartialEq, Eq, Structural)]
pub enum SignatureHelpTriggerKind {
    Invoked,
    TriggerCharacter,
    ContentChange,
}

/// Why hints are asked for.
#[derive(Debug, Clone, PartialEq, Eq)]
pub struct SignatureHelpContext {
    pub trigger_kind: SignatureHelpTriggerKind,
    pub trigger_character: Option<String>,
    pub is_retrigger: bool,
    /// The hints that are shown when others are asked for.
    pub active_signature_help: Option<SignatureHelp>,
}

/// A request for hints at an offset.
#[derive(Debug, Clone, PartialEq, Eq)]
pub struct SignatureHelpRequest {
    pub generation: u64,
    pub offset: usize,
    pub context: SignatureHelpContext,
    /// How long it is held back, in milliseconds.
    pub delay: u64,
}

pub open spec fn optional_help_view(help: Option<SignatureHelp>) -> Option<HelpModel> {
    match help {
        Some(help) => Some(help@),
        None => None,
    }
}

/// Why hints are asked for, with those that are shown.
pub open spec fn is_help_context(
    context: SignatureHelpContext,
    kind: SignatureHelpTriggerKind,
    trigger: Option<Seq<char>>,
    shown: Option<HelpModel>,
) -> bool {
    &&& context.trigger_kind == kind
    &&& optional_view(context.trigger_character) == trigger
    &&& context.is_retrigger == (shown is Some)
    &&& optional_help_view(context.active_signature_help) == shown
}

fn copy_tooltip(tooltip: &Option<Tooltip>) -> (copy: Option<Tooltip>)
    ensures
        copy == *tooltip,
{
    match tooltip {
        Some(Tooltip::Plain { value }) => Some(Tooltip::Plain { value: value.clone() }),
        Some(Tooltip::Markup { markdown, value }) => Some(
            Tooltip::Markup { markdown: *markdown, value: value.clone() },
        ),
        None => None,
    }
}

fn copy_parameter(parameter: &ParameterInformation) -> (copy: ParameterInformation)
    ensures
        copy == *parameter,
{
    let label = match &parameter.label {
        ParameterLabel::Simple { label } => ParameterLabel::Simple { label: label.clone() },
        ParameterLabel::Offsets { start, end } => ParameterLabel::Offsets {
            start: *start,
            end: *end,
        },
    };
    ParameterInformation { label, documentation: copy_tooltip(&parameter.documentation) }
}

fn copy_signature(signature: &SignatureInformation) -> (copy: SignatureInformation)
    ensures
        copy@ == signature@,
{
    let parameters = match &signature.parameters {
        Some(parameters) => {
            let mut copies: Vec<ParameterInformation> = Vec::new();
            let mut i: usize = 0;
            while i < parameters.len()
                invariant
                    i <= parameters@.len(),
                    copies@ =~= parameters@.take(i as int),
                decreases parameters.len() - i,
            {
                copies.push(copy_parameter(&parameters[i]));
                i = i + 1;
            }
            assert(copies@ =~= parameters@);
            Some(copies)
        },
        None => None,
    };
    SignatureInformation {
        label: signature.label.clone(),
        documentation: copy_tooltip(&signature.documentation),
        parameters,
        active_parameter: signature.active_parameter,
    }
}

fn copy_help(help: &SignatureHelp) -> (copy: SignatureHelp)
    ensures
        copy@ == help@,
{
    let mut signatures: Vec<SignatureInformation> = Vec::new();
    let mut i: usize = 0;
    while i < help.signatures.len()
        invariant
            i <= help.signatures@.len(),
            signatures_view(signatures@) =~= signatures_view(help.signatures@).take(i as int),
        decreases help.signatures.len() - i,
    {
        let ghost before = signatures@;
        let copy = copy_signature(&help.signatures[i]);
        let ghost model = copy@;
        signatures.push(copy);
        assert(signatures_view(signatures@) =~= signatures_view(before).push(model));
        i = i + 1;
    }
    assert(signatures_view(signatures@) =~= signatures_view(help.signatures@));
    SignatureHelp {
        signatures,
        active_signature: help.active_signature,
        active_parameter: help.active_parameter,
    }
}

/// The index, or zero where there is none, made an index of one of `n` items.
pub open spec fn clamped(index: Option<u32>, n: int) -> int {
    let asked = match index {
        Some(index) => index as int,
        None => 0,
    };
    if asked < n {
        asked
    } else {
        n - 1
    }
}

fn clamp(index: Option<u32>, n: usize) -> (clamped_index: usize)
    requires
        n > 0,
    ensures
        clamped_index == clamped(index, n as int),
        clamped_index < n,
{
    let asked: usize = match index {
        Some(index) => index as usize,
        None => 0,
    };
    if asked < n {
        asked
    } else {
        n - 1
    }
}

/// The trigger ends at the offset.
pub open spec fn ends_at(t: Seq<u8>, offset: int, trigger: Seq<char>) -> bool {
    let b = encode_utf8(trigger);
    b.len() > 0 && offset <= t.len() && text::is_boundary(t, offset) && bytes::matches_at(
        t,
        offset - b.len(),
        b,
    )
}

/// The last of the longest among the first `n` triggers that end at the offset.
pub open spec fn longest_trigger(t: Seq<u8>, offset: int, triggers: Seq<String>, n: int) -> Option<
    int,
>
    decreases n,
{
    if n <= 0 {
        None
    } else {
        let before = longest_trigger(t, offset, triggers, n - 1);
        if ends_at(t, offset, triggers[n - 1]@) && (before is None || encode_utf8(
            triggers[before->Some_0]@,
        ).len() <= encode_utf8(triggers[n - 1]@).len()) {
            Some(n - 1)
        } else {
            before
        }
    }
}

/// The trigger among the first `n` that ends at the offset, the longest of them.
pub open spec fn trigger_text(t: Seq<u8>, offset: int, triggers: Seq<String>) -> Option<Seq<char>> {
    match longest_trigger(t, offset, triggers, triggers.len() as int) {
        Some(index) => Some(triggers[index]@),
        None => None,
    }
}

/// The longest trigger that ends at the offset.
pub fn trigger_at(document: &Document, offset: usize, triggers: &Vec<String>) -> (trigger: Option<
    String,
>)
    requires
        document.wf(),
    ensures
        optional_view(trigger) == trigger_text(document.bytes(), offset as int, triggers@),
{
    let ghost t = document.bytes();
    let hay = document.as_bytes();
    let fits = offset <= hay.len() && document.is_char_boundary(offset);
    let mut best: Option<usize> = None;
    let mut i: usize = 0;
    while i < triggers.len()
        invariant
            i <= triggers@.len(),
            hay@ == t,
            fits == (offset <= t.len() && text::is_boundary(t, offset as int)),
            match best {
                Some(b) => b < i && longest_trigger(t, offset as int, triggers@, i as int) == Some(
                    b as int,
                ),
                None => longest_trigger(t, offset as int, triggers@, i as int) is None,
            },
        decreases triggers.len() - i,
    {
        let needle = triggers[i].as_str().as_bytes();
        if fits && needle.len() > 0 && needle.len() <= offset && bytes::bytes_match_at(
            hay,
            offset - needle.len(),
            needle,
        ) {
            let longer = match best {
                Some(b) => triggers[b].as_str().as_bytes().len() <= needle.len(),
                None => true,
            };
            if longer {
                best = Some(i);
            }
        }
        i = i + 1;
    }
    match best {
        Some(b) => Some(triggers[b].clone()),
        None => None,
    }
}

/// No trigger that ends at the offset is longer than the one that is found.
pub proof fn law_longest_trigger(t: Seq<u8>, offset: int, triggers: Seq<String>, n: int)
    requires
        0 <= n <= triggers.len(),
    ensures
        match longest_trigger(t, offset, triggers, n) {
            Some(index) => {
                &&& 0 <= index < n
                &&& ends_at(t, offset, triggers[index]@)
                &&& forall|i: int|
                    #![trigger triggers[i]]
                    0 <= i < n && ends_at(t, offset, triggers[i]@) ==> encode_utf8(
                        triggers[i]@,
                    ).len() <= encode_utf8(triggers[index]@).len()
            },
            None => forall|i: int|
                #![trigger triggers[i]]
                0 <= i < n ==> !ends_at(t, offset, triggers[i]@),
        },
    decreases n,
{
    if n > 0 {
        law_longest_trigger(t, offset, triggers, n - 1);
    }
}

/// A signature with a bounded list of parameters, one of which is the active
/// one. One with too long a label is none.
pub open spec fn normal_signature(signature: SignatureModel) -> Option<SignatureModel> {
    if signature.label@.len() > MAX_SIGNATURE_LABEL_CHARS {
        None
    } else {
        match signature.parameters {
            Some(parameters) => {
                let kept = items::at_most(parameters, MAX_PARAMETERS as int);
                Some(
                    SignatureModel {
                        parameters: Some(kept),
                        active_parameter: if kept.len() == 0 {
                            None
                        } else {
                            Some(clamped(signature.active_parameter, kept.len() as int) as u32)
                        },
                        ..signature
                    },
                )
            },
            None => Some(SignatureModel { active_parameter: None, ..signature }),
        }
    }
}

/// The normal ones of the first `n` signatures.
pub open spec fn normal_signatures(signatures: Seq<SignatureModel>, n: int) -> Seq<SignatureModel>
    decreases n,
{
    if n <= 0 {
        Seq::empty()
    } else {
        match normal_signature(signatures[n - 1]) {
            Some(signature) => normal_signatures(signatures, n - 1).push(signature),
            None => normal_signatures(signatures, n - 1),
        }
    }
}

pub open spec fn parameter_count(signature: SignatureModel) -> int {
    match signature.parameters {
        Some(parameters) => parameters.len() as int,
        None => 0,
    }
}

/// A bounded list of normal signatures, one of which is the active one, if
/// there is any.
pub open spec fn normal_help(help: HelpModel) -> Option<HelpModel> {
    let signatures = items::at_most(
        normal_signatures(help.signatures, help.signatures.len() as int),
        MAX_SIGNATURES as int,
    );
    if signatures.len() == 0 {
        None
    } else {
        let active = clamped(help.active_signature, signatures.len() as int);
        let count = parameter_count(signatures[active]);
        Some(
            HelpModel {
                signatures,
                active_signature: Some(active as u32),
                active_parameter: if count == 0 {
                    None
                } else {
                    Some(clamped(help.active_parameter, count) as u32)
                },
            },
        )
    }
}

fn normalize_signature(signature: SignatureInformation) -> (normal: Option<SignatureInformation>)
    ensures
        match normal_signature(signature@) {
            Some(expected) => normal is Some && (normal->Some_0)@ == expected,
            None => normal is None,
        },
{
    if chars::chars_of(signature.label.as_str()).len() > MAX_SIGNATURE_LABEL_CHARS {
        return None;
    }
    let mut normal = signature;
    match normal.parameters {
        Some(parameters) => {
            let mut kept = parameters;
            if kept.len() > MAX_PARAMETERS {
                kept.truncate(MAX_PARAMETERS);
            }
            assert(kept@ =~= items::at_most(parameters@, MAX_PARAMETERS as int));
            normal.active_parameter = if kept.len() == 0 {
                None
            } else {
                Some(clamp(normal.active_parameter, kept.len()) as u32)
            };
            normal.parameters = Some(kept);
        },
        None => {
            normal.active_parameter = None;
            normal.parameters = None;
        },
    }
    Some(normal)
}

/// A bounded list of normal signatures, one of which is the active one, if
/// there is any.
pub fn normalize_signature_help(help: SignatureHelp) -> (normal: Option<SignatureHelp>)
    ensures
        match normal_help(help@) {
            Some(expected) => normal is Some && (normal->Some_0)@ == expected,
            None => normal is None,
        },
{
    let ghost all = signatures_view(help.signatures@);
    let total: usize = help.signatures.len();
    let mut rest = items::reversed(help.signatures);
    let mut kept: Vec<SignatureInformation> = Vec::new();
    assert(signatures_view(kept@) =~= normal_signatures(all, 0));
    while rest.len() > 0
        invariant
            rest@.len() <= total,
            total == all.len(),
            forall|k: int|
                #![trigger rest@[k]]
                0 <= k < rest@.len() ==> rest@[k]@ == all[total - 1 - k],
            signatures_view(kept@) == normal_signatures(all, total - rest@.len()),
        decreases rest.len(),
    {
        let ghost n = total - rest@.len();
        let ghost before = kept@;
        assert(rest@[rest@.len() - 1]@ == all[n]);
        let signature = rest.pop().unwrap();
        match normalize_signature(signature) {
            Some(normal) => {
                kept.push(normal);
                assert(signatures_view(kept@) =~= signatures_view(before).push(normal@));
            },
            None => {},
        }
    }
    let ghost whole = signatures_view(kept@);
    if kept.len() > MAX_SIGNATURES {
        kept.truncate(MAX_SIGNATURES);
    }
    assert(signatures_view(kept@) =~= items::at_most(whole, MAX_SIGNATURES as int));
    if kept.len() == 0 {
        return None;
    }
    let active: usize = clamp(help.active_signature, kept.len());
    let count: usize = match &kept[active].parameters {
        Some(parameters) => parameters.len(),
        None => 0,
    };
    assert(signatures_view(kept@)[active as int] == kept@[active as int]@);
    let active_parameter = if count == 0 {
        None
    } else {
        Some(clamp(help.active_parameter, count) as u32)
    };
    Some(SignatureHelp { signatures: kept, active_signature: Some(active as u32), active_parameter })
}

/// Normal signatures are not more than the limit, and the active one is one of
/// them.
pub proof fn law_normal_help(help: HelpModel)
    requires
        normal_help(help) is Some,
    ensures
        0 < (normal_help(help)->Some_0).signatures.len() <= MAX_SIGNATURES,
        (normal_help(help)->Some_0).active_signature is Some,
        ((normal_help(help)->Some_0).active_signature->Some_0) < (normal_help(
            help,
        )->Some_0).signatures.len(),
{
    let signatures = (normal_help(help)->Some_0).signatures;
    assert(0 <= clamped(help.active_signature, signatures.len() as int) < signatures.len());
}

impl SignatureHelpPopover {
    /// The signature that is shown.
    pub open spec fn active_index(&self) -> int {
        clamped(self.help.active_signature, self.help.signatures@.len() as int)
    }

    /// Selects the overload before. Returns whether there is one.
    pub fn previous(&mut self) -> (moved: bool)
        ensures
            moved == (old(self).help.signatures@.len() >= 2 && old(self).active_index() > 0),
            *final(self) == if moved {
                SignatureHelpPopover {
                    help: SignatureHelp {
                        active_signature: Some((old(self).active_index() - 1) as u32),
                        ..old(self).help
                    },
                    ..*old(self)
                }
            } else {
                *old(self)
            },
    {
        if self.help.signatures.len() < 2 {
            return false;
        }
        let active: usize = clamp(self.help.active_signature, self.help.signatures.len());
        if active == 0 {
            return false;
        }
        self.help.active_signature = Some((active - 1) as u32);
        true
    }

    /// Selects the overload behind. Returns whether there is one.
    pub fn next(&mut self) -> (moved: bool)
        ensures
            moved == (old(self).help.signatures@.len() >= 2 && old(self).active_index() + 1 < old(
                self,
            ).help.signatures@.len()),
            *final(self) == if moved {
                SignatureHelpPopover {
                    help: SignatureHelp {
                        active_signature: Some((old(self).active_index() + 1) as u32),
                        ..old(self).help
                    },
                    ..*old(self)
                }
            } else {
                *old(self)
            },
    {
        if self.help.signatures.len() < 2 {
            return false;
        }
        let active: usize = clamp(self.help.active_signature, self.help.signatures.len());
        if active + 1 >= self.help.signatures.len() {
            return false;
        }
        self.help.active_signature = Some((active + 1) as u32);
        true
    }
}

/// The number of UTF-16 units of a character.
pub open spec fn utf16_units(c: char) -> int {
    if c as u32 >= 0x1_0000 {
        2
    } else {
        1
    }
}

/// The byte offset behind `target` UTF-16 units, reading on from character `i`
/// with `units` units and `byte` bytes behind it. None where it splits a
/// character or lies behind the end.
pub open spec fn utf16_byte(s: Seq<char>, target: int, i: int, units: int, byte: int) -> Option<int>
    decreases s.len() - i,
{
    if units == target {
        Some(byte)
    } else if i >= s.len() || units > target {
        None
    } else {
        utf16_byte(
            s,
            target,
            i + 1,
            units + utf16_units(s[i]),
            byte + chars::char_len(s[i]),
        )
    }
}

/// The byte offset of an offset in UTF-16 units.
pub fn utf16_offset_to_byte(text: &str, target: u32) -> (byte: Option<usize>)
    ensures
        match byte {
            Some(byte) => utf16_byte(text@, target as int, 0, 0, 0) == Some(byte as int) && byte
                <= encode_utf8(text@).len(),
            None => utf16_byte(text@, target as int, 0, 0, 0) is None,
        },
{
    let all = chars::chars_of(text);
    let total: usize = text.as_bytes().len();
    let mut i: usize = 0;
    let mut units: u64 = 0;
    let mut byte: usize = 0;
    assert(text@.take(0) =~= Seq::empty());
    proof {
        chars::lemma_byte_len_empty();
    }
    while i < all.len() && units < target as u64
        invariant
            all@ == text@,
            total == encode_utf8(text@).len(),
            i <= all@.len(),
            units <= target + 1,
            byte == chars::byte_len(text@.take(i as int)),
            byte <= total,
            utf16_byte(text@, target as int, 0, 0, 0) == utf16_byte(
                text@,
                target as int,
                i as int,
                units as int,
                byte as int,
            ),
        decreases all.len() - i,
    {
        let c = all[i];
        proof {
            assert(text@.take(i + 1) =~= text@.take(i as int).push(c));
            chars::lemma_byte_len_push(text@.take(i as int), c);
            chars::lemma_byte_len_split(text@, i + 1);
        }
        units = units + if c as u32 >= 0x1_0000 {
            2
        } else {
            1
        };
        byte = byte + chars::utf8_len(c);
        i = i + 1;
    }
    if units == target as u64 {
        Some(byte)
    } else {
        None
    }
}

/// No word goes on over the ends of the part.
pub open spec fn stands_alone(t: Seq<u8>, start: int, end: int) -> bool {
    (start == 0 || !chars::is_word_character(chars::char_before(t, start))) && (end >= t.len()
        || !chars::is_word_character(chars::char_at(t, end)))
}

/// The first place from `from` on, none reaching into the next, where the
/// parameter stands alone in the label.
pub open spec fn parameter_place(t: Seq<u8>, needle: Seq<u8>, from: int) -> Option<int>
    decreases t.len() - from,
{
    if needle.len() == 0 {
        None
    } else {
        match bytes::next_match(t, from, needle) {
            Some(at) => if at < from || from < 0 || at + needle.len() > t.len() {
                None
            } else if stands_alone(t, at, at + needle.len()) {
                Some(at)
            } else {
                parameter_place(t, needle, at + needle.len())
            },
            None => None,
        }
    }
}

/// The first place where the parameter stands alone in the label.
pub fn simple_parameter_range(label: &str, parameter: &str) -> (range: Option<Range<usize>>)
    ensures
        match range {
            Some(range) => parameter_place(encode_utf8(label@), encode_utf8(parameter@), 0) == Some(
                range.start as int,
            ) && range.end == range.start + encode_utf8(parameter@).len(),
            None => parameter_place(encode_utf8(label@), encode_utf8(parameter@), 0) is None,
        },
{
    let hay = label.as_bytes();
    let needle = parameter.as_bytes();
    let ghost t = encode_utf8(label@);
    proof {
        encode_utf8_valid_utf8(label@);
    }
    if needle.len() == 0 {
        return None;
    }
    let mut from: usize = 0;
    while from <= hay.len()
        invariant
            hay@ == t,
            t == encode_utf8(label@),
            valid_utf8(t),
            needle@ == encode_utf8(parameter@),
            needle@.len() > 0,
            from <= t.len(),
            parameter_place(t, needle@, 0) == parameter_place(t, needle@, from as int),
        decreases t.len() - from,
    {
        match bytes::find_bytes(hay, from, needle) {
            Some(start) => {
                let end: usize = start + needle.len();
                proof {
                    bytes::lemma_next_match(t, from as int, needle@);
                    pairs::lemma_match_boundaries(t, start as int, parameter@);
                }
                let left_ok = start == 0 || !chars::check_word_character(
                    chars::read_char_before(label, start),
                );
                let right_ok = end >= hay.len() || !chars::check_word_character(
                    chars::read_char(label, end).0,
                );
                if left_ok && right_ok {
                    return Some(Range { start, end });
                }
                from = end;
            },
            None => {
                return None;
            },
        }
    }
    None
}

/// Where a parameter stands in the label of its signature.
pub open spec fn parameter_span(signature: SignatureModel, index: int) -> Option<(int, int)> {
    match signature.parameters {
        Some(parameters) => if index < parameters.len() {
            match parameters[index].label {
                ParameterLabel::Simple { label } => match parameter_place(
                    encode_utf8(signature.label@),
                    encode_utf8(label@),
                    0,
                ) {
                    Some(start) => Some((start, start + encode_utf8(label@).len())),
                    None => None,
                },
                ParameterLabel::Offsets { start, end } => match (
                    utf16_byte(signature.label@, start as int, 0, 0, 0),
                    utf16_byte(signature.label@, end as int, 0, 0, 0),
                ) {
                    (Some(start), Some(end)) => if start < end {
                        Some((start, end))
                    } else {
                        None
                    },
                    _ => None,
                },
            }
        } else {
            None
        },
        None => None,
    }
}

/// Where a parameter stands in the label of its signature.
pub fn active_parameter_range(signature: &SignatureInformation, active_parameter: usize) -> (range:
    Option<Range<usize>>)
    ensures
        match range {
            Some(range) => parameter_span(signature@, active_parameter as int) == Some(
                (range.start as int, range.end as int),
            ),
            None => parameter_span(signature@, active_parameter as int) is None,
        },
{
    match &signature.parameters {
        Some(parameters) => {
            if active_parameter >= parameters.len() {
                return None;
            }
            match &parameters[active_parameter].label {
                ParameterLabel::Simple { label } => simple_parameter_range(
                    signature.label.as_str(),
                    label.as_str(),
                ),
                ParameterLabel::Offsets { start, end } => {
                    let start = utf16_offset_to_byte(signature.label.as_str(), *start);
                    let end = utf16_offset_to_byte(signature.label.as_str(), *end);
                    match (start, end) {
                        (Some(start), Some(end)) => if start < end {
                            Some(Range { start, end })
                        } else {
                            None
                        },
                        _ => None,
                    }
                },
            }
        },
        None => None,
    }
}

/// Index of the first character from `from` on that is not white space.
pub open spec fn text_start(s: Seq<char>, from: int) -> int
    decreases s.len() - from,
{
    if from >= s.len() || !chars::is_whitespace(s[from]) {
        from
    } else {
        text_start(s, from + 1)
    }
}

/// Index behind the last of the first `n` characters that is not white space.
pub open spec fn text_end(s: Seq<char>, n: int) -> int
    decreases n,
{
    if n <= 0 || !chars::is_whitespace(s[n - 1]) {
        n
    } else {
        text_end(s, n - 1)
    }
}

/// `s` without white space around it.
pub open spec fn trimmed(s: Seq<char>) -> Seq<char> {
    let start = text_start(s, 0);
    let end = text_end(s, s.len() as int);
    if start < end {
        s.subrange(start, end)
    } else {
        Seq::empty()
    }
}

pub open spec fn tooltip_value(tooltip: Tooltip) -> Seq<char> {
    match tooltip {
        Tooltip::Plain { value } => value@,
        Tooltip::Markup { markdown, value } => value@,
    }
}

/// What is shown of a documentation, if it has text.
pub open spec fn shown_documentation(documentation: Option<Tooltip>) -> Option<Seq<char>> {
    match documentation {
        Some(documentation) => {
            let value = trimmed(tooltip_value(documentation));
            if value.len() == 0 {
                None
            } else {
                Some(items::at_most(value, MAX_DOCUMENTATION_CHARS as int))
            }
        },
        None => None,
    }
}

fn documentation_text(documentation: &Option<Tooltip>) -> (shown: Option<String>)
    ensures
        optional_view(shown) == shown_documentation(*documentation),
{
    let value = match documentation {
        Some(Tooltip::Plain { value }) => value,
        Some(Tooltip::Markup { markdown: _, value }) => value,
        None => {
            return None;
        },
    };
    let all = chars::chars_of(value.as_str());
    let mut start: usize = 0;
    while start < all.len() && chars::check_whitespace(all[start])
        invariant
            start <= all@.len(),
            text_start(all@, 0) == text_start(all@, start as int),
        decreases all.len() - start,
    {
        start = start + 1;
    }
    let mut end: usize = all.len();
    while end > 0 && chars::check_whitespace(all[end - 1])
        invariant
            end <= all@.len(),
            text_end(all@, all@.len() as int) == text_end(all@, end as int),
        decreases end,
    {
        end = end - 1;
    }
    if start >= end {
        return None;
    }
    let stop: usize = if end - start > MAX_DOCUMENTATION_CHARS {
        start + MAX_DOCUMENTATION_CHARS
    } else {
        end
    };
    let mut shown = String::new();
    let mut i: usize = start;
    assert(shown@ =~= all@.subrange(start as int, start as int));
    while i < stop
        invariant
            start <= i <= stop <= all@.len(),
            shown@ == all@.subrange(start as int, i as int),
        decreases stop - i,
    {
        chars::push_char(&mut shown, all[i]);
        assert(shown@ =~= all@.subrange(start as int, i + 1));
        i = i + 1;
    }
    assert(shown@ =~= items::at_most(trimmed(all@), MAX_DOCUMENTATION_CHARS as int));
    Some(shown)
}

/// The documentation of a parameter before that of its signature.
pub open spec fn joined_documentation(signature: SignatureModel, index: int) -> Option<Seq<char>> {
    let own = match signature.parameters {
        Some(parameters) => if index < parameters.len() {
            shown_documentation(parameters[index].documentation)
        } else {
            None
        },
        None => None,
    };
    match (own, shown_documentation(signature.documentation)) {
        (Some(parameter), Some(signature)) => Some(parameter + seq!['\n', '\n'] + signature),
        (Some(documentation), None) => Some(documentation),
        (None, Some(documentation)) => Some(documentation),
        (None, None) => None,
    }
}

/// The documentation of a parameter before that of its signature.
pub fn signature_documentation(signature: &SignatureInformation, active_parameter: usize) -> (shown:
    Option<String>)
    ensures
        optional_view(shown) == joined_documentation(signature@, active_parameter as int),
{
    let own = match &signature.parameters {
        Some(parameters) => {
            if active_parameter < parameters.len() {
                documentation_text(&parameters[active_parameter].documentation)
            } else {
                None
            }
        },
        None => None,
    };
    let whole = documentation_text(&signature.documentation);
    match (own, whole) {
        (Some(parameter), Some(signature)) => {
            let mut joined = parameter;
            let ghost first = joined@;
            chars::push_char(&mut joined, '\n');
            chars::push_char(&mut joined, '\n');
            assert(joined@ =~= first + seq!['\n', '\n']);
            text::push_text(&mut joined, signature.as_str());
            Some(joined)
        },
        (Some(documentation), None) => Some(documentation),
        (None, Some(documentation)) => Some(documentation),
        (None, None) => None,
    }
}

/// The parameter that is shown as the active one.
pub open spec fn shown_parameter(help: HelpModel, signature: SignatureModel) -> int {
    let asked = match signature.active_parameter {
        Some(index) => index as int,
        None => match help.active_parameter {
            Some(index) => index as int,
            None => 0,
        },
    };
    let count = parameter_count(signature);
    if count == 0 {
        0
    } else if asked < count {
        asked
    } else {
        count - 1
    }
}

impl SignatureHelpPopover {
    /// The signature that is shown and its active parameter.
    pub fn shown(&self) -> (shown: (usize, usize))
        requires
            self.help.signatures@.len() > 0,
        ensures
            shown.0 == self.active_index(),
            shown.0 < self.help.signatures@.len(),
            shown.1 == shown_parameter(self.help@, self.help.signatures@[shown.0 as int]@),
    {
        let index: usize = clamp(self.help.active_signature, self.help.signatures.len());
        let signature = &self.help.signatures[index];
        let asked: usize = match signature.active_parameter {
            Some(active) => active as usize,
            None => match self.help.active_parameter {
                Some(active) => active as usize,
                None => 0,
            },
        };
        let count: usize = match &signature.parameters {
            Some(parameters) => parameters.len(),
            None => 0,
        };
        let parameter: usize = if count == 0 {
            0
        } else if asked < count {
            asked
        } else {
            count - 1
        };
        (index, parameter)
    }
}

/// The hints that are shown, as plain values.
pub open spec fn popover_view(popover: Option<SignatureHelpPopover>) -> Option<(int, HelpModel)> {
    match popover {
        Some(popover) => Some((popover.anchor_offset as int, popover.help@)),
        None => None,
    }
}

impl InputState {
    /// Hides the hints and drops the reply to any request for them.
    pub fn close_signature_help(&mut self) -> (was_visible: bool)
        ensures
            was_visible == (old(self).lsp.signature_help_popover is Some),
            *final(self) == (InputState {
                lsp: Lsp {
                    signature_help_popover: None,
                    signature_help_generation: next_generation(
                        old(self).lsp.signature_help_generation,
                    ),
                    ..old(self).lsp
                },
                ..*old(self)
            }),
    {
        let was_visible = self.lsp.signature_help_popover.is_some();
        self.lsp.signature_help_popover = None;
        self.lsp.signature_help_generation = bump(self.lsp.signature_help_generation);
        was_visible
    }

    /// The hints that are shown.
    pub open spec fn shown_help(&self) -> Option<HelpModel> {
        match self.lsp.signature_help_popover {
            Some(popover) => Some(popover.help@),
            None => None,
        }
    }

    /// A request at the cursor, whose generation is the current one from here on.
    pub open spec fn is_help_request(
        before: InputState,
        after: InputState,
        request: SignatureHelpRequest,
        delay: u64,
    ) -> bool {
        &&& request.delay == delay
        &&& request.generation == next_generation(before.lsp.signature_help_generation)
        &&& request.offset == before.primary().spec_head()
        &&& after == (InputState {
            lsp: Lsp { signature_help_generation: request.generation, ..before.lsp },
            ..before
        })
    }

    fn active_signature_help(&self) -> (help: Option<SignatureHelp>)
        ensures
            optional_help_view(help) == self.shown_help(),
    {
        match &self.lsp.signature_help_popover {
            Some(popover) => Some(copy_help(&popover.help)),
            None => None,
        }
    }

    fn request_signature_help(&mut self, context: SignatureHelpContext, delay: u64) -> (request:
        SignatureHelpRequest)
        ensures
            InputState::is_help_request(*old(self), *final(self), request, delay),
            request.context == context,
    {
        let offset: usize = self.cursor();
        self.lsp.signature_help_generation = bump(self.lsp.signature_help_generation);
        SignatureHelpRequest {
            generation: self.lsp.signature_help_generation,
            offset,
            context,
            delay,
        }
    }

    /// Whether a request that was held back is still to be sent.
    pub fn wants_signature_help(&self, request: &SignatureHelpRequest) -> (wanted: bool)
        ensures
            wanted == (self.lsp.signature_help_generation == request.generation),
    {
        self.lsp.signature_help_generation == request.generation
    }

    /// Asks for hints on command.
    pub fn trigger_parameter_hints(&mut self, has_provider: bool) -> (request: Option<
        SignatureHelpRequest,
    >)
        ensures
            !has_provider ==> request is None && *final(self) == (InputState {
                lsp: Lsp {
                    signature_help_popover: None,
                    signature_help_generation: next_generation(
                        old(self).lsp.signature_help_generation,
                    ),
                    ..old(self).lsp
                },
                ..*old(self)
            }),
            has_provider ==> {
                &&& request is Some
                &&& InputState::is_help_request(*old(self), *final(self), request->Some_0, 0)
                &&& is_help_context(
                    (request->Some_0).context,
                    SignatureHelpTriggerKind::Invoked,
                    None,
                    old(self).shown_help(),
                )
            },
    {
        if !has_provider {
            self.close_signature_help();
            return None;
        }
        let active_signature_help = self.active_signature_help();
        let context = SignatureHelpContext {
            trigger_kind: SignatureHelpTriggerKind::Invoked,
            trigger_character: None,
            is_retrigger: active_signature_help.is_some(),
            active_signature_help,
        };
        Some(self.request_signature_help(context, 0))
    }

    /// The triggers that count: those of a new call, and while hints are shown
    /// those within a call too.
    pub open spec fn counting_triggers(
        &self,
        triggers: Seq<String>,
        retriggers: Seq<String>,
    ) -> Seq<String> {
        if self.lsp.signature_help_popover is Some {
            triggers + retriggers
        } else {
            triggers
        }
    }

    /// Asks for hints after a change of the text, where it calls for them: a
    /// trigger stands before the cursor, or hints are shown. New hints come only
    /// where that is allowed.
    pub fn handle_signature_help_text_change(
        &mut self,
        triggers: Vec<String>,
        retriggers: Vec<String>,
        allow_new_trigger: bool,
    ) -> (request: Option<SignatureHelpRequest>)
        ensures
            ({
                let visible = old(self).lsp.signature_help_popover is Some;
                let trigger = trigger_text(
                    old(self).bytes(),
                    old(self).primary().spec_head() as int,
                    old(self).counting_triggers(triggers@, retriggers@),
                );
                if visible || (allow_new_trigger && trigger is Some) {
                    &&& request is Some
                    &&& InputState::is_help_request(
                        *old(self),
                        *final(self),
                        request->Some_0,
                        SIGNATURE_HELP_DELAY,
                    )
                    &&& is_help_context(
                        (request->Some_0).context,
                        if trigger is Some {
                            SignatureHelpTriggerKind::TriggerCharacter
                        } else {
                            SignatureHelpTriggerKind::ContentChange
                        },
                        trigger,
                        old(self).shown_help(),
                    )
                } else {
                    request is None && *final(self) == *old(self)
                }
            }),
    {
        let visible = self.lsp.signature_help_popover.is_some();
        if !allow_new_trigger && !visible {
            return None;
        }
        let mut all = triggers;
        let mut more = retriggers;
        if visible {
            all.append(&mut more);
        }
        assert(all@ =~= self.counting_triggers(triggers@, retriggers@));
        let trigger_character = trigger_at(&self.document(), self.cursor(), &all);
        if trigger_character.is_none() && !visible {
            return None;
        }
        let trigger_kind = if trigger_character.is_some() {
            SignatureHelpTriggerKind::TriggerCharacter
        } else {
            SignatureHelpTriggerKind::ContentChange
        };
        let active_signature_help = self.active_signature_help();
        let context = SignatureHelpContext {
            trigger_kind,
            trigger_character,
            is_retrigger: visible,
            active_signature_help,
        };
        Some(self.request_signature_help(context, SIGNATURE_HELP_DELAY))
    }

    /// Asks again after the cursor has moved, while hints are shown.
    pub fn retrigger_signature_help_after_cursor_move(&mut self, has_provider: bool) -> (request:
        Option<SignatureHelpRequest>)
        ensures
            old(self).lsp.signature_help_popover is None ==> request is None && *final(self)
                == *old(self),
            old(self).lsp.signature_help_popover is Some && !has_provider ==> request is None
                && *final(self) == (InputState {
                lsp: Lsp {
                    signature_help_popover: None,
                    signature_help_generation: next_generation(
                        old(self).lsp.signature_help_generation,
                    ),
                    ..old(self).lsp
                },
                ..*old(self)
            }),
            old(self).lsp.signature_help_popover is Some && has_provider ==> {
                &&& request is Some
                &&& InputState::is_help_request(
                    *old(self),
                    *final(self),
                    request->Some_0,
                    SIGNATURE_HELP_DELAY,
                )
                &&& is_help_context(
                    (request->Some_0).context,
                    SignatureHelpTriggerKind::ContentChange,
                    None,
                    old(self).shown_help(),
                )
            },
    {
        if self.lsp.signature_help_popover.is_none() {
            return None;
        }
        if !has_provider {
            self.close_signature_help();
            return None;
        }
        let active_signature_help = self.active_signature_help();
        let context = SignatureHelpContext {
            trigger_kind: SignatureHelpTriggerKind::ContentChange,
            trigger_character: None,
            is_retrigger: true,
            active_signature_help,
        };
        Some(self.request_signature_help(context, SIGNATURE_HELP_DELAY))
    }

    /// Takes the hints of a request whose generation is still the current one.
    /// A reply without hints hides those that are shown.
    pub fn receive_signature_help(
        &mut self,
        request: &SignatureHelpRequest,
        help: Option<SignatureHelp>,
    ) -> (taken: bool)
        ensures
            taken == (old(self).lsp.signature_help_generation == request.generation),
            !taken ==> *final(self) == *old(self),
            taken ==> {
                &&& *final(self) == (InputState {
                    lsp: Lsp {
                        signature_help_popover: final(self).lsp.signature_help_popover,
                        ..old(self).lsp
                    },
                    ..*old(self)
                })
                &&& popover_view(final(self).lsp.signature_help_popover) == match help {
                    Some(help) => match normal_help(help@) {
                        Some(normal) => Some((request.offset as int, normal)),
                        None => None,
                    },
                    None => None,
                }
            },
    {
        if self.lsp.signature_help_generation != request.generation {
            return false;
        }
        let normal = match help {
            Some(help) => normalize_signature_help(help),
            None => None,
        };
        self.lsp.signature_help_popover = match normal {
            Some(help) => Some(SignatureHelpPopover { anchor_offset: request.offset, help }),
            None => None,
        };
        true
    }

    /// The hints that are shown.
    pub fn signature_help(&self) -> (help: Option<&SignatureHelp>)
        ensures
            match self.lsp.signature_help_popover {
                Some(popover) => help == Some(&popover.help),
                None => help is None,
            },
    {
        match &self.lsp.signature_help_popover {
            Some(popover) => Some(&popover.help),
            None => None,
        }
    }

    pub fn signature_help_has_multiple(&self) -> (multiple: bool)
        ensures
            multiple == match self.lsp.signature_help_popover {
                Some(popover) => popover.help.signatures@.len() > 1,
                None => false,
            },
    {
        match &self.lsp.signature_help_popover {
            Some(popover) => popover.help.signatures.len() > 1,
            None => false,
        }
    }

    /// Another overload is shown, or the hints are hidden at the end of the list.
    pub open spec fn is_overload_step(
        before: InputState,
        after: InputState,
        forward: bool,
        handled: bool,
    ) -> bool {
        match before.lsp.signature_help_popover {
            None => !handled && after == before,
            Some(popover) => {
                let active = popover.active_index();
                let count = popover.help.signatures@.len();
                let target = if forward {
                    active + 1
                } else {
                    active - 1
                };
                &&& handled
                &&& after == if count >= 2 && 0 <= target < count {
                    InputState {
                        lsp: Lsp {
                            signature_help_popover: Some(
                                SignatureHelpPopover {
                                    help: SignatureHelp {
                                        active_signature: Some(target as u32),
                                        ..popover.help
                                    },
                                    ..popover
                                },
                            ),
                            ..before.lsp
                        },
                        ..before
                    }
                } else {
                    InputState {
                        lsp: Lsp {
                            signature_help_popover: None,
                            signature_help_generation: next_generation(
                                before.lsp.signature_help_generation,
                            ),
                            ..before.lsp
                        },
                        ..before
                    }
                }
            },
        }
    }

    /// Select the previous overload. At the first overload, close the hints.
    pub fn previous_parameter_hint(&mut self) -> (handled: bool)
        ensures
            InputState::is_overload_step(*old(self), *final(self), false, handled),
    {
        self.step_overload(false)
    }

    /// Select the next overload. At the last overload, close the hints.
    pub fn next_parameter_hint(&mut self) -> (handled: bool)
        ensures
            InputState::is_overload_step(*old(self), *final(self), true, handled),
    {
        self.step_overload(true)
    }

    fn step_overload(&mut self, forward: bool) -> (handled: bool)
        ensures
            InputState::is_overload_step(*old(self), *final(self), forward, handled),
    {
        let mut popover = None;
        std::mem::swap(&mut popover, &mut self.lsp.signature_help_popover);
        match popover {
            Some(popover) => {
                let mut popover = popover;
                let keep_open = if forward {
                    popover.next()
                } else {
                    popover.previous()
                };
                if keep_open {
                    self.lsp.signature_help_popover = Some(popover);
                } else {
                    self.close_signature_help();
                }
                true
            },
            None => false,
        }
    }
}

} // verus!

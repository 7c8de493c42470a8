//! The texts of a diagnostic.

use crate::chars;
use crate::snippet_variables::optional_view;
use crate::text;
use vstd::prelude::*;

verus! {

#[derive(Debug, Copy, Clone, PartialEq, Eq, Structural)]
pub enum DiagnosticTag {
    Unnecessary,
    Deprecated,
}

/// Who reports a diagnostic, and under which code and tags.
#[derive(Debug, Clone, PartialEq, Eq)]
pub struct DiagnosticEntry {
    pub source: Option<String>,
    pub code: Option<String>,
    pub tags: Option<Vec<DiagnosticTag>>,
    pub message: String,
}

/// A place that has to do with a diagnostic.
#[derive(Debug, Clone, PartialEq, Eq)]
pub struct DiagnosticRelatedInformation {
    pub uri: String,
    pub line: u32,
    pub character: u32,
    pub message: String,
}

/// The source with the code in brackets, as far as they are known.
pub open spec fn metadata_text(source: Option<Seq<char>>, code: Option<Seq<char>>) -> Option<
    Seq<char>,
> {
    match (source, code) {
        (Some(source), Some(code)) => Some(source + seq!['('] + code + seq![')']),
        (Some(source), None) => Some(source),
        (None, Some(code)) => Some(code),
        (None, None) => None,
    }
}

/// The source with the code in brackets, as far as they are known.
pub fn diagnostic_metadata_label(diagnostic: &DiagnosticEntry) -> (label: Option<String>)
    ensures
        optional_view(label) == metadata_text(
            optional_view(diagnostic.source),
            optional_view(diagnostic.code),
        ),
{
    match (&diagnostic.source, &diagnostic.code) {
        (Some(source), Some(code)) => {
            let mut label = source.clone();
            chars::push_char(&mut label, '(');
            assert(label@ =~= source@ + seq!['(']);
            text::push_text(&mut label, code.as_str());
            let ghost before = label@;
            chars::push_char(&mut label, ')');
            assert(label@ =~= before + seq![')']);
            Some(label)
        },
        (Some(source), None) => Some(source.clone()),
        (None, Some(code)) => Some(code.clone()),
        (None, None) => None,
    }
}

pub open spec fn has_tag(tags: Option<Vec<DiagnosticTag>>, tag: DiagnosticTag) -> bool {
    match tags {
        Some(tags) => tags@.contains(tag),
        None => false,
    }
}

fn check_tag(tags: &Option<Vec<DiagnosticTag>>, tag: DiagnosticTag) -> (found: bool)
    ensures
        found == has_tag(*tags, tag),
{
    match tags {
        Some(list) => {
            let mut i: usize = 0;
            while i < list.len()
                invariant
                    *tags == Some(*list),
                    i <= list@.len(),
                    forall|k: int| 0 <= k < i ==> #[trigger] list@[k] != tag,
                decreases list.len() - i,
            {
                if list[i] == tag {
                    assert(list@[i as int] == tag);
                    return true;
                }
                i = i + 1;
            }
            false
        },
        None => false,
    }
}

/// The names of the tags that a diagnostic has.
pub fn diagnostic_tag_labels(diagnostic: &DiagnosticEntry) -> (labels: Vec<&'static str>)
    ensures
        ({
            let unnecessary = has_tag(diagnostic.tags, DiagnosticTag::Unnecessary);
            let deprecated = has_tag(diagnostic.tags, DiagnosticTag::Deprecated);
            &&& labels@.len() == (if unnecessary {
                1int
            } else {
                0int
            }) + (if deprecated {
                1int
            } else {
                0int
            })
            &&& unnecessary ==> labels@[0]@ == "Unnecessary"@
            &&& deprecated ==> labels@.last()@ == "Deprecated"@
        }),
{
    let mut labels: Vec<&'static str> = Vec::new();
    if check_tag(&diagnostic.tags, DiagnosticTag::Unnecessary) {
        labels.push("Unnecessary");
    }
    if check_tag(&diagnostic.tags, DiagnosticTag::Deprecated) {
        labels.push("Deprecated");
    }
    labels
}

/// Index behind the last slash among the first `n` characters.
pub open spec fn behind_slash(uri: Seq<char>, n: int) -> int
    decreases n,
{
    if n <= 0 || uri[n - 1] == '/' {
        n
    } else {
        behind_slash(uri, n - 1)
    }
}

/// What follows the last slash, or the whole where nothing does.
pub open spec fn target_name(uri: Seq<char>) -> Seq<char> {
    let start = behind_slash(uri, uri.len() as int);
    if start < uri.len() {
        uri.skip(start)
    } else {
        uri
    }
}

/// The name of the file, the line and column counted from one, and the message.
pub open spec fn related_text(information: DiagnosticRelatedInformation) -> Seq<char> {
    target_name(information.uri@) + seq![':'] + chars::decimal(information.line + 1) + seq![':']
        + chars::decimal(information.character + 1) + seq![' ', '\u{2014}', ' ']
        + information.message@
}

/// The name of the file, the line and column counted from one, and the message.
pub fn diagnostic_related_information_label(information: &DiagnosticRelatedInformation) -> (label:
    String)
    requires
        information.line < u32::MAX,
        information.character < u32::MAX,
    ensures
        label@ == related_text(*information),
{
    let uri = chars::chars_of(information.uri.as_str());
    let mut start: usize = uri.len();
    while start > 0 && uri[start - 1] != '/'
        invariant
            start <= uri@.len(),
            behind_slash(uri@, uri@.len() as int) == behind_slash(uri@, start as int),
        decreases start,
    {
        start = start - 1;
    }
    let from: usize = if start < uri.len() {
        start
    } else {
        0
    };
    let mut label = String::new();
    let mut i: usize = from;
    assert(label@ =~= uri@.subrange(from as int, from as int));
    while i < uri.len()
        invariant
            from <= i <= uri@.len(),
            label@ == uri@.subrange(from as int, i as int),
        decreases uri.len() - i,
    {
        chars::push_char(&mut label, uri[i]);
        assert(label@ =~= uri@.subrange(from as int, i + 1));
        i = i + 1;
    }
    assert(label@ =~= target_name(uri@));
    chars::push_char(&mut label, ':');
    assert(label@ =~= target_name(uri@) + seq![':']);
    let line = chars::to_decimal((information.line + 1) as usize);
    text::push_text(&mut label, line.as_str());
    let ghost before = label@;
    chars::push_char(&mut label, ':');
    assert(label@ =~= before + seq![':']);
    let character = chars::to_decimal((information.character + 1) as usize);
    text::push_text(&mut label, character.as_str());
    let ghost before = label@;
    chars::push_char(&mut label, ' ');
    chars::push_char(&mut label, '\u{2014}');
    chars::push_char(&mut label, ' ');
    assert(label@ =~= before + seq![' ', '\u{2014}', ' ']);
    text::push_text(&mut label, information.message.as_str());
    label
}

} // verus!

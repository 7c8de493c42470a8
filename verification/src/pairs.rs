//! Bracket pairs: language configuration, automatic closing, surrounding,
//! overtyping and matching.

use crate::bytes;
use crate::chars;
use crate::edit;
use crate::order;
use crate::text;
use std::ops::Range;
use vstd::prelude::*;
use vstd::string::*;
use vstd::utf8::*;

verus! {

/// Bound on the pairs of each kind in a language configuration.
pub const MAX_PAIRS: usize = 128;

/// Bound on the length of a token in a language configuration.
pub const MAX_TOKEN_BYTES: usize = 32;

#[derive(Clone, Copy, Debug, PartialEq, Eq, Structural)]
pub enum EditorTokenContext {
    Code,
    String,
    Comment,
}

#[derive(Clone, Debug, PartialEq, Eq)]
pub struct EditorCharacterPair {
    pub open: String,
    pub close: String,
}

impl EditorCharacterPair {
    pub fn new(open: &str, close: &str) -> (pair: Self)
        ensures
            pair.open@ == open@,
            pair.close@ == close@,
    {
        EditorCharacterPair { open: open.to_owned(), close: close.to_owned() }
    }

    pub open spec fn pair_view(self) -> (Seq<char>, Seq<char>) {
        (self.open@, self.close@)
    }

    /// A pair with the same tokens.
    fn copy(&self) -> (pair: Self)
        ensures
            pair.pair_view() == self.pair_view(),
    {
        EditorCharacterPair::new(self.open.as_str(), self.close.as_str())
    }
}

#[derive(Clone, Debug, PartialEq, Eq)]
pub struct EditorAutoClosingPair {
    pub open: String,
    pub close: String,
    pub not_in: Vec<EditorTokenContext>,
}

impl EditorAutoClosingPair {
    pub fn new(open: &str, close: &str) -> (pair: Self)
        ensures
            pair.open@ == open@,
            pair.close@ == close@,
            pair.not_in@ == Seq::<EditorTokenContext>::empty(),
    {
        EditorAutoClosingPair {
            open: open.to_owned(),
            close: close.to_owned(),
            not_in: Vec::new(),
        }
    }

    /// The same pair, not to be closed in the given contexts.
    pub fn not_in(self, contexts: Vec<EditorTokenContext>) -> (pair: Self)
        ensures
            pair.open@ == self.open@,
            pair.close@ == self.close@,
            pair.not_in@ == contexts@,
    {
        EditorAutoClosingPair { open: self.open, close: self.close, not_in: contexts }
    }

    pub open spec fn pair_view(self) -> (Seq<char>, Seq<char>) {
        (self.open@, self.close@)
    }
}

/// Data supplied by the host application for one editor language: brackets,
/// automatic closing, surrounding, comment and string rules.
#[derive(Clone, Debug, PartialEq, Eq)]
pub struct EditorLanguageConfiguration {
    pub(crate) brackets: Vec<EditorCharacterPair>,
    pub(crate) auto_closing_pairs: Vec<EditorAutoClosingPair>,
    pub(crate) surrounding_pairs: Vec<EditorCharacterPair>,
    pub(crate) line_comment: Option<String>,
    pub(crate) block_comment: Option<EditorCharacterPair>,
    pub(crate) string_delimiters: Vec<String>,
    pub(crate) auto_close_before: Option<String>,
}

/// What a language configuration holds.
pub struct LanguageModel {
    pub brackets: Seq<EditorCharacterPair>,
    pub auto_closing_pairs: Seq<EditorAutoClosingPair>,
    pub surrounding_pairs: Seq<EditorCharacterPair>,
    pub line_comment: Option<String>,
    pub block_comment: Option<EditorCharacterPair>,
    pub string_delimiters: Seq<String>,
    pub auto_close_before: Option<String>,
}

impl View for EditorLanguageConfiguration {
    type V = LanguageModel;

    closed spec fn view(&self) -> LanguageModel {
        LanguageModel {
            brackets: self.brackets@,
            auto_closing_pairs: self.auto_closing_pairs@,
            surrounding_pairs: self.surrounding_pairs@,
            line_comment: self.line_comment,
            block_comment: self.block_comment,
            string_delimiters: self.string_delimiters@,
            auto_close_before: self.auto_close_before,
        }
    }
}

impl Default for EditorLanguageConfiguration {
    fn default() -> (configuration: Self)
        ensures
            configuration@ == empty_language(),
    {
        EditorLanguageConfiguration::new()
    }
}

/// A configuration without any rule.
pub open spec fn empty_language() -> LanguageModel {
    LanguageModel {
        brackets: Seq::empty(),
        auto_closing_pairs: Seq::empty(),
        surrounding_pairs: Seq::empty(),
        line_comment: None,
        block_comment: None,
        string_delimiters: Seq::empty(),
        auto_close_before: None,
    }
}

impl EditorLanguageConfiguration {
    pub fn new() -> (configuration: Self)
        ensures
            configuration@ == empty_language(),
    {
        EditorLanguageConfiguration {
            brackets: Vec::new(),
            auto_closing_pairs: Vec::new(),
            surrounding_pairs: Vec::new(),
            line_comment: None,
            block_comment: None,
            string_delimiters: Vec::new(),
            auto_close_before: None,
        }
    }

    pub fn with_brackets(self, pairs: Vec<EditorCharacterPair>) -> (configuration: Self)
        ensures
            configuration@ == (LanguageModel { brackets: pairs@, ..self@ }),
    {
        let mut configuration = self;
        configuration.brackets = pairs;
        configuration
    }

    pub fn with_auto_closing_pairs(self, pairs: Vec<EditorAutoClosingPair>) -> (configuration: Self)
        ensures
            configuration@ == (LanguageModel { auto_closing_pairs: pairs@, ..self@ }),
    {
        let mut configuration = self;
        configuration.auto_closing_pairs = pairs;
        configuration
    }

    pub fn with_surrounding_pairs(self, pairs: Vec<EditorCharacterPair>) -> (configuration: Self)
        ensures
            configuration@ == (LanguageModel { surrounding_pairs: pairs@, ..self@ }),
    {
        let mut configuration = self;
        configuration.surrounding_pairs = pairs;
        configuration
    }

    pub fn with_line_comment(self, token: &str) -> (configuration: Self)
        ensures
            configuration@.line_comment matches Some(own) && own@ == token@,
            configuration@ == (LanguageModel {
                line_comment: configuration@.line_comment,
                ..self@
            }),
    {
        let mut configuration = self;
        configuration.line_comment = Some(token.to_owned());
        configuration
    }

    pub fn with_block_comment(self, open: &str, close: &str) -> (configuration: Self)
        ensures
            configuration@.block_comment matches Some(own) && own.pair_view() == (open@, close@),
            configuration@ == (LanguageModel {
                block_comment: configuration@.block_comment,
                ..self@
            }),
    {
        let mut configuration = self;
        configuration.block_comment = Some(EditorCharacterPair::new(open, close));
        configuration
    }

    pub fn with_string_delimiters(self, delimiters: Vec<String>) -> (configuration: Self)
        ensures
            configuration@ == (LanguageModel { string_delimiters: delimiters@, ..self@ }),
    {
        let mut configuration = self;
        configuration.string_delimiters = delimiters;
        configuration
    }

    pub fn with_auto_close_before(self, characters: &str) -> (configuration: Self)
        ensures
            configuration@.auto_close_before matches Some(own) && own@ == characters@,
            configuration@ == (LanguageModel {
                auto_close_before: configuration@.auto_close_before,
                ..self@
            }),
    {
        let mut configuration = self;
        configuration.auto_close_before = Some(characters.to_owned());
        configuration
    }

    pub fn brackets(&self) -> (pairs: &[EditorCharacterPair])
        ensures
            pairs@ == self@.brackets,
    {
        self.brackets.as_slice()
    }

    pub fn auto_closing_pairs(&self) -> (pairs: &[EditorAutoClosingPair])
        ensures
            pairs@ == self@.auto_closing_pairs,
    {
        self.auto_closing_pairs.as_slice()
    }

    pub fn surrounding_pairs(&self) -> (pairs: &[EditorCharacterPair])
        ensures
            pairs@ == self@.surrounding_pairs,
    {
        self.surrounding_pairs.as_slice()
    }

    /// The language's line-comment token, such as `//` or `#`.
    pub fn line_comment(&self) -> (token: Option<&str>)
        ensures
            match token {
                Some(token) => self@.line_comment matches Some(own) && own@ == token@,
                None => self@.line_comment is None,
            },
    {
        match &self.line_comment {
            Some(token) => Some(token.as_str()),
            None => None,
        }
    }

    /// The language's block-comment delimiters, such as `/*` and `*/`.
    pub fn block_comment(&self) -> (pair: Option<&EditorCharacterPair>)
        ensures
            match pair {
                Some(pair) => self@.block_comment == Some(*pair),
                None => self@.block_comment is None,
            },
    {
        self.block_comment.as_ref()
    }

    pub fn is_empty(&self) -> (empty: bool)
        ensures
            empty == (self@.brackets.len() == 0 && self@.auto_closing_pairs.len() == 0
                && self@.surrounding_pairs.len() == 0),
    {
        self.brackets.len() == 0 && self.auto_closing_pairs.len() == 0
            && self.surrounding_pairs.len() == 0
    }
}

/// A token that is not empty and not too long.
pub open spec fn is_valid_token(token: Seq<char>) -> bool {
    0 < encode_utf8(token).len() <= MAX_TOKEN_BYTES
}

fn valid_token(token: &str) -> (valid: bool)
    ensures
        valid == is_valid_token(token@),
{
    let len: usize = token.as_bytes().len();
    0 < len && len <= MAX_TOKEN_BYTES
}

pub open spec fn is_valid_pair(pair: (Seq<char>, Seq<char>)) -> bool {
    is_valid_token(pair.0) && is_valid_token(pair.1)
}

pub open spec fn pair_views(pairs: Seq<EditorCharacterPair>) -> Seq<(Seq<char>, Seq<char>)> {
    Seq::new(pairs.len(), |i: int| pairs[i].pair_view())
}

pub open spec fn closing_views(pairs: Seq<EditorAutoClosingPair>) -> Seq<(Seq<char>, Seq<char>)> {
    Seq::new(pairs.len(), |i: int| pairs[i].pair_view())
}

pub open spec fn token_views(tokens: Seq<String>) -> Seq<Seq<char>> {
    Seq::new(tokens.len(), |i: int| tokens[i]@)
}

/// The valid among the first `n` pairs.
pub open spec fn valid_pairs(pairs: Seq<(Seq<char>, Seq<char>)>, n: int) -> Seq<
    (Seq<char>, Seq<char>),
>
    decreases n,
{
    if n <= 0 {
        Seq::empty()
    } else if is_valid_pair(pairs[n - 1]) {
        valid_pairs(pairs, n - 1).push(pairs[n - 1])
    } else {
        valid_pairs(pairs, n - 1)
    }
}

/// The valid among the first `n` tokens.
pub open spec fn valid_tokens(tokens: Seq<Seq<char>>, n: int) -> Seq<Seq<char>>
    decreases n,
{
    if n <= 0 {
        Seq::empty()
    } else if is_valid_token(tokens[n - 1]) {
        valid_tokens(tokens, n - 1).push(tokens[n - 1])
    } else {
        valid_tokens(tokens, n - 1)
    }
}

pub open spec fn bounded(n: nat) -> int {
    if n <= MAX_PAIRS {
        n as int
    } else {
        MAX_PAIRS as int
    }
}

/// The first `MAX_PAIRS` pairs, without those that are not valid.
pub open spec fn normal_pairs(pairs: Seq<(Seq<char>, Seq<char>)>) -> Seq<(Seq<char>, Seq<char>)> {
    valid_pairs(pairs, bounded(pairs.len()))
}

fn normalize_pairs(pairs: &Vec<EditorCharacterPair>) -> (kept: Vec<EditorCharacterPair>)
    ensures
        pair_views(kept@) == normal_pairs(pair_views(pairs@)),
{
    let ghost pv = pair_views(pairs@);
    let mut kept: Vec<EditorCharacterPair> = Vec::new();
    let mut i: usize = 0;
    assert(pair_views(kept@) =~= valid_pairs(pv, 0));
    while i < pairs.len() && i < MAX_PAIRS
        invariant
            pv == pair_views(pairs@),
            i <= pairs@.len(),
            i <= MAX_PAIRS,
            pair_views(kept@) == valid_pairs(pv, i as int),
        decreases pairs.len() - i,
    {
        let pair = &pairs[i];
        assert(pv[i as int] == pairs@[i as int].pair_view());
        if valid_token(pair.open.as_str()) && valid_token(pair.close.as_str()) {
            let ghost before = kept@;
            kept.push(pair.copy());
            assert(pair_views(kept@) =~= pair_views(before).push(pv[i as int]));
        }
        i = i + 1;
    }
    kept
}

/// The valid among the first `n` auto-closing pairs, with their contexts.
pub open spec fn valid_closing_pairs(pairs: Seq<EditorAutoClosingPair>, n: int) -> Seq<
    (Seq<char>, Seq<char>, Seq<EditorTokenContext>),
>
    decreases n,
{
    if n <= 0 {
        Seq::empty()
    } else if is_valid_pair(pairs[n - 1].pair_view()) {
        valid_closing_pairs(pairs, n - 1).push(full_view(pairs[n - 1]))
    } else {
        valid_closing_pairs(pairs, n - 1)
    }
}

pub open spec fn full_view(pair: EditorAutoClosingPair) -> (
    Seq<char>,
    Seq<char>,
    Seq<EditorTokenContext>,
) {
    (pair.open@, pair.close@, pair.not_in@)
}

pub open spec fn full_views(pairs: Seq<EditorAutoClosingPair>) -> Seq<
    (Seq<char>, Seq<char>, Seq<EditorTokenContext>),
> {
    Seq::new(pairs.len(), |i: int| full_view(pairs[i]))
}

fn copy_contexts(contexts: &Vec<EditorTokenContext>) -> (copy: Vec<EditorTokenContext>)
    ensures
        copy@ == contexts@,
{
    let mut copy: Vec<EditorTokenContext> = Vec::new();
    let mut i: usize = 0;
    while i < contexts.len()
        invariant
            i <= contexts@.len(),
            copy@ == contexts@.take(i as int),
        decreases contexts.len() - i,
    {
        assert(contexts@.take(i + 1) =~= contexts@.take(i as int).push(contexts@[i as int]));
        copy.push(contexts[i]);
        i = i + 1;
    }
    assert(contexts@.take(contexts@.len() as int) =~= contexts@);
    copy
}

fn normalize_closing_pairs(pairs: &Vec<EditorAutoClosingPair>) -> (kept: Vec<EditorAutoClosingPair>)
    ensures
        full_views(kept@) == valid_closing_pairs(pairs@, bounded(pairs@.len())),
{
    let mut kept: Vec<EditorAutoClosingPair> = Vec::new();
    let mut i: usize = 0;
    assert(full_views(kept@) =~= valid_closing_pairs(pairs@, 0));
    while i < pairs.len() && i < MAX_PAIRS
        invariant
            i <= pairs@.len(),
            i <= MAX_PAIRS,
            full_views(kept@) == valid_closing_pairs(pairs@, i as int),
        decreases pairs.len() - i,
    {
        let pair = &pairs[i];
        if valid_token(pair.open.as_str()) && valid_token(pair.close.as_str()) {
            let ghost before = kept@;
            kept.push(
                EditorAutoClosingPair {
                    open: pair.open.clone(),
                    close: pair.close.clone(),
                    not_in: copy_contexts(&pair.not_in),
                },
            );
            assert(full_views(kept@) =~= full_views(before).push(full_view(pairs@[i as int])));
        }
        i = i + 1;
    }
    kept
}

/// What a configuration holds once defaults are filled in and tokens that are
/// not valid are dropped: without auto-closing pairs the brackets close, and
/// without surrounding pairs the auto-closing pairs surround.
pub open spec fn is_normalized(before: LanguageModel, after: LanguageModel) -> bool {
    let brackets = pair_views(before.brackets);
    let closing = if before.auto_closing_pairs.len() == 0 {
        brackets
    } else {
        closing_views(before.auto_closing_pairs)
    };
    let surrounding = if before.surrounding_pairs.len() == 0 {
        closing
    } else {
        pair_views(before.surrounding_pairs)
    };
    &&& pair_views(after.brackets) == normal_pairs(brackets)
    &&& closing_views(after.auto_closing_pairs) == normal_pairs(closing)
    &&& if before.auto_closing_pairs.len() == 0 {
        forall|i: int|
            0 <= i < after.auto_closing_pairs.len() ==> (
            #[trigger] after.auto_closing_pairs[i]).not_in@.len() == 0
    } else {
        full_views(after.auto_closing_pairs) == valid_closing_pairs(
            before.auto_closing_pairs,
            bounded(before.auto_closing_pairs.len()),
        )
    }
    &&& pair_views(after.surrounding_pairs) == normal_pairs(surrounding)
    &&& token_views(after.string_delimiters) == valid_tokens(
        token_views(before.string_delimiters),
        bounded(before.string_delimiters.len()),
    )
    &&& match before.line_comment {
        Some(token) if is_valid_token(token@) => after.line_comment matches Some(own) && own@
            == token@,
        _ => after.line_comment is None,
    }
    &&& match before.block_comment {
        Some(pair) if is_valid_pair(pair.pair_view()) => after.block_comment matches Some(own)
            && own.pair_view() == pair.pair_view(),
        _ => after.block_comment is None,
    }
    &&& after.auto_close_before == before.auto_close_before
}

proof fn lemma_valid_closing_views(pairs: Seq<EditorAutoClosingPair>, n: int)
    requires
        0 <= n <= pairs.len(),
    ensures
        Seq::new(
            valid_closing_pairs(pairs, n).len(),
            |i: int| (valid_closing_pairs(pairs, n)[i].0, valid_closing_pairs(pairs, n)[i].1),
        ) =~= valid_pairs(closing_views(pairs), n),
    decreases n,
{
    if n > 0 {
        lemma_valid_closing_views(pairs, n - 1);
    }
}

impl EditorLanguageConfiguration {
    /// The configuration with defaults filled in and without tokens that are
    /// not valid.
    pub fn normalized(self) -> (configuration: Self)
        ensures
            is_normalized(self@, configuration@),
    {
        let ghost before = self@;
        let mut closing: Vec<EditorAutoClosingPair> = Vec::new();
        if self.auto_closing_pairs.len() == 0 {
            let mut i: usize = 0;
            while i < self.brackets.len()
                invariant
                    i <= self.brackets@.len(),
                    closing@.len() == i,
                    forall|k: int|
                        #![trigger closing@[k]]
                        0 <= k < i ==> closing@[k].pair_view() == self.brackets@[k].pair_view()
                            && closing@[k].not_in@.len() == 0,
                decreases self.brackets.len() - i,
            {
                closing.push(
                    EditorAutoClosingPair::new(
                        self.brackets[i].open.as_str(),
                        self.brackets[i].close.as_str(),
                    ),
                );
                i = i + 1;
            }
            assert(closing_views(closing@) =~= pair_views(before.brackets));
        } else {
            closing = self.auto_closing_pairs;
        }
        let mut surrounding: Vec<EditorCharacterPair> = Vec::new();
        if self.surrounding_pairs.len() == 0 {
            let mut i: usize = 0;
            while i < closing.len()
                invariant
                    i <= closing@.len(),
                    surrounding@.len() == i,
                    forall|k: int|
                        #![trigger surrounding@[k]]
                        0 <= k < i ==> surrounding@[k].pair_view() == closing@[k].pair_view(),
                decreases closing.len() - i,
            {
                surrounding.push(
                    EditorCharacterPair::new(closing[i].open.as_str(), closing[i].close.as_str()),
                );
                i = i + 1;
            }
            assert(pair_views(surrounding@) =~= closing_views(closing@));
        } else {
            surrounding = self.surrounding_pairs;
        }
        let brackets = normalize_pairs(&self.brackets);
        let auto_closing_pairs = normalize_closing_pairs(&closing);
        let surrounding_pairs = normalize_pairs(&surrounding);
        proof {
            let n = bounded(closing@.len());
            lemma_valid_closing_views(closing@, n);
            let kept = valid_closing_pairs(closing@, n);
            assert(full_views(auto_closing_pairs@) == kept);
            assert(closing_views(auto_closing_pairs@) =~= Seq::new(
                kept.len(),
                |i: int| (kept[i].0, kept[i].1),
            )) by {
                assert forall|i: int| 0 <= i < kept.len() implies closing_views(
                    auto_closing_pairs@,
                )[i] == (kept[i].0, kept[i].1) by {
                    assert(full_views(auto_closing_pairs@)[i] == kept[i]);
                }
            }
            if before.auto_closing_pairs.len() == 0 {
                lemma_no_contexts(closing@, n);
                assert forall|i: int| 0 <= i < auto_closing_pairs@.len() implies (
                #[trigger] auto_closing_pairs@[i]).not_in@.len() == 0 by {
                    assert(full_views(auto_closing_pairs@)[i] == kept[i]);
                }
            }
        }
        let mut string_delimiters: Vec<String> = Vec::new();
        let ghost tv = token_views(self.string_delimiters@);
        let mut i: usize = 0;
        assert(token_views(string_delimiters@) =~= valid_tokens(tv, 0));
        while i < self.string_delimiters.len() && i < MAX_PAIRS
            invariant
                tv == token_views(self.string_delimiters@),
                i <= self.string_delimiters@.len(),
                i <= MAX_PAIRS,
                token_views(string_delimiters@) == valid_tokens(tv, i as int),
            decreases self.string_delimiters.len() - i,
        {
            assert(tv[i as int] == self.string_delimiters@[i as int]@);
            if valid_token(self.string_delimiters[i].as_str()) {
                let ghost kept = string_delimiters@;
                string_delimiters.push(self.string_delimiters[i].clone());
                assert(token_views(string_delimiters@) =~= token_views(kept).push(tv[i as int]));
            }
            i = i + 1;
        }
        let line_comment = match self.line_comment {
            Some(token) => if valid_token(token.as_str()) {
                Some(token)
            } else {
                None
            },
            None => None,
        };
        let block_comment = match self.block_comment {
            Some(pair) => if valid_token(pair.open.as_str()) && valid_token(pair.close.as_str()) {
                Some(pair)
            } else {
                None
            },
            None => None,
        };
        EditorLanguageConfiguration {
            brackets,
            auto_closing_pairs,
            surrounding_pairs,
            line_comment,
            block_comment,
            string_delimiters,
            auto_close_before: self.auto_close_before,
        }
    }
}

proof fn lemma_no_contexts(pairs: Seq<EditorAutoClosingPair>, n: int)
    requires
        0 <= n <= pairs.len(),
        forall|k: int| #![trigger pairs[k]] 0 <= k < pairs.len() ==> pairs[k].not_in@.len() == 0,
    ensures
        forall|i: int|
            0 <= i < valid_closing_pairs(pairs, n).len() ==> (#[trigger] valid_closing_pairs(
                pairs,
                n,
            )[i]).2.len() == 0,
    decreases n,
{
    if n > 0 {
        lemma_no_contexts(pairs, n - 1);
        let before = valid_closing_pairs(pairs, n - 1);
        let after = valid_closing_pairs(pairs, n);
        assert forall|i: int| 0 <= i < after.len() implies (#[trigger] after[i]).2.len() == 0 by {
            if i < before.len() {
                assert(after[i] == before[i]);
            } else {
                assert(after[i] == full_view(pairs[n - 1]));
            }
        }
    }
}

/// The tokens that tell code, strings and comments apart.
pub struct LexicalTokens {
    pub line: Option<Seq<u8>>,
    pub block: Option<(Seq<u8>, Seq<u8>)>,
    pub delimiters: Seq<Seq<u8>>,
}

/// What stands at some offset of the text: code, a comment to the end of the
/// line, a block comment, or a string with the given delimiter.
pub enum Lexical {
    Code,
    LineComment,
    BlockComment,
    InString(Seq<u8>),
}

/// Whether a token ends in a quotation mark.
pub open spec fn is_quote_token(token: Seq<u8>) -> bool {
    token.len() > 0 && (token.last() == 39 || token.last() == 34 || token.last() == 96)
}

/// The opening tokens of the first `n` pairs that are quotation marks.
pub open spec fn quote_delimiters(pairs: Seq<EditorAutoClosingPair>, n: int) -> Seq<Seq<u8>>
    decreases n,
{
    if n <= 0 {
        Seq::empty()
    } else {
        let before = quote_delimiters(pairs, n - 1);
        let open = encode_utf8(pairs[n - 1].open@);
        if open == encode_utf8(pairs[n - 1].close@) && is_quote_token(open) {
            before.push(open)
        } else {
            before
        }
    }
}

pub open spec fn encoded(tokens: Seq<String>) -> Seq<Seq<u8>> {
    Seq::new(tokens.len(), |i: int| encode_utf8(tokens[i]@))
}

/// The tokens of a language: strings begin and end with the configured
/// delimiters and with the auto-closing pairs that are quotation marks.
pub open spec fn lexical_tokens(language: LanguageModel) -> LexicalTokens {
    LexicalTokens {
        line: match language.line_comment {
            Some(token) => Some(encode_utf8(token@)),
            None => None,
        },
        block: match language.block_comment {
            Some(pair) => Some((encode_utf8(pair.open@), encode_utf8(pair.close@))),
            None => None,
        },
        delimiters: encoded(language.string_delimiters) + quote_delimiters(
            language.auto_closing_pairs,
            language.auto_closing_pairs.len() as int,
        ),
    }
}

/// The longest of the first `n` tokens that stand at `o`.
pub open spec fn longest_token(t: Seq<u8>, o: int, tokens: Seq<Seq<u8>>, n: int) -> Option<Seq<u8>>
    decreases n,
{
    if n <= 0 {
        None
    } else {
        let before = longest_token(t, o, tokens, n - 1);
        if bytes::matches_at(t, o, tokens[n - 1]) && (before is None || before->Some_0.len()
            < tokens[n - 1].len()) {
            Some(tokens[n - 1])
        } else {
            before
        }
    }
}

/// Number of backslashes just before `o`.
pub open spec fn backslashes(t: Seq<u8>, o: int) -> int
    decreases o,
{
    if 0 < o <= t.len() && t[o - 1] == 92 {
        1 + backslashes(t, o - 1)
    } else {
        0
    }
}

/// Whether what stands at `o` is escaped.
pub open spec fn is_escaped(t: Seq<u8>, o: int) -> bool {
    backslashes(t, o) % 2 == 1
}

/// What begins at `o` in code, and where it leads.
pub open spec fn code_token(t: Seq<u8>, o: int, tokens: LexicalTokens) -> Option<(int, Lexical)> {
    if tokens.line is Some && bytes::matches_at(t, o, tokens.line->Some_0) {
        Some((o + tokens.line->Some_0.len(), Lexical::LineComment))
    } else if tokens.block is Some && bytes::matches_at(t, o, (tokens.block->Some_0).0) {
        Some((o + (tokens.block->Some_0).0.len(), Lexical::BlockComment))
    } else {
        match longest_token(t, o, tokens.delimiters, tokens.delimiters.len() as int) {
            Some(delimiter) => Some((o + delimiter.len(), Lexical::InString(delimiter))),
            None => None,
        }
    }
}

/// One step of reading outside code: over the end of the comment or string, or
/// over one character.
pub open spec fn skip_step(t: Seq<u8>, o: int, state: Lexical, tokens: LexicalTokens) -> (
    int,
    Lexical,
) {
    let next = text::ceil_boundary(t, o + 1);
    match state {
        Lexical::Code => (next, Lexical::Code),
        Lexical::LineComment => (
            next,
            if t[o] == 10 {
                Lexical::Code
            } else {
                Lexical::LineComment
            },
        ),
        Lexical::BlockComment => if tokens.block is Some && bytes::matches_at(
            t,
            o,
            (tokens.block->Some_0).1,
        ) {
            (o + (tokens.block->Some_0).1.len(), Lexical::Code)
        } else {
            (next, Lexical::BlockComment)
        },
        Lexical::InString(delimiter) => if bytes::matches_at(t, o, delimiter) && !is_escaped(t, o) {
            (o + delimiter.len(), Lexical::Code)
        } else {
            (next, state)
        },
    }
}

/// One step of reading.
pub open spec fn lexical_step(t: Seq<u8>, o: int, state: Lexical, tokens: LexicalTokens) -> (
    int,
    Lexical,
) {
    if state is Code && code_token(t, o, tokens) is Some {
        code_token(t, o, tokens)->Some_0
    } else {
        skip_step(t, o, state, tokens)
    }
}

/// What stands at `target`, reading on from `o`.
pub open spec fn lexical_at(
    t: Seq<u8>,
    o: int,
    state: Lexical,
    target: int,
    tokens: LexicalTokens,
) -> Lexical
    decreases t.len() - o,
{
    if o < 0 || o >= target || o >= t.len() {
        state
    } else {
        let (next, after) = lexical_step(t, o, state, tokens);
        if next <= o || next > t.len() {
            after
        } else {
            lexical_at(t, next, after, target, tokens)
        }
    }
}

/// The context at `target`.
pub open spec fn token_context(t: Seq<u8>, target: int, language: LanguageModel) -> EditorTokenContext {
    match lexical_at(t, 0, Lexical::Code, target, lexical_tokens(language)) {
        Lexical::Code => EditorTokenContext::Code,
        Lexical::InString(_) => EditorTokenContext::String,
        Lexical::LineComment => EditorTokenContext::Comment,
        Lexical::BlockComment => EditorTokenContext::Comment,
    }
}

/// Whether no token by which the text is read is empty.
pub open spec fn tokens_wf(language: LanguageModel) -> bool {
    let tokens = lexical_tokens(language);
    &&& tokens.line matches Some(line) ==> line.len() > 0
    &&& tokens.block matches Some(block) ==> block.0.len() > 0 && block.1.len() > 0
    &&& forall|i: int|
        0 <= i < tokens.delimiters.len() ==> (#[trigger] tokens.delimiters[i]).len() > 0
}

/// Whether neither such a token nor a bracket is empty.
pub open spec fn brackets_wf(language: LanguageModel) -> bool {
    &&& tokens_wf(language)
    &&& forall|i: int|
        #![trigger language.brackets[i]]
        0 <= i < language.brackets.len() ==> encode_utf8(language.brackets[i].open@).len() > 0
            && encode_utf8(language.brackets[i].close@).len() > 0
}

/// How the executable reader remembers what it is in.
#[derive(Clone, Copy, Debug, PartialEq, Eq, Structural)]
enum LexicalState {
    Code,
    LineComment,
    BlockComment,
    /// In a string with the delimiter of this number.
    InString(usize),
}

spec fn state_view(state: LexicalState, delimiters: Seq<Seq<u8>>) -> Lexical {
    match state {
        LexicalState::Code => Lexical::Code,
        LexicalState::LineComment => Lexical::LineComment,
        LexicalState::BlockComment => Lexical::BlockComment,
        LexicalState::InString(i) => Lexical::InString(delimiters[i as int]),
    }
}

spec fn state_wf(state: LexicalState, delimiters: Seq<Seq<u8>>) -> bool {
    state matches LexicalState::InString(i) ==> i < delimiters.len()
}

fn is_quote(token: &[u8]) -> (quote: bool)
    ensures
        quote == is_quote_token(token@),
{
    token.len() > 0 && (token[token.len() - 1] == 39 || token[token.len() - 1] == 34
        || token[token.len() - 1] == 96)
}

fn escaped_at(t: &[u8], offset: usize) -> (escaped: bool)
    requires
        offset <= t@.len(),
    ensures
        escaped == is_escaped(t@, offset as int),
{
    let mut count: usize = 0;
    let mut o: usize = offset;
    while o > 0 && t[o - 1] == 92
        invariant
            o <= offset <= t@.len(),
            count == offset - o,
            backslashes(t@, offset as int) == count + backslashes(t@, o as int),
        decreases o,
    {
        count = count + 1;
        o = o - 1;
    }
    count % 2 == 1
}

fn equal_strings(a: &str, b: &str) -> (equal: bool)
    ensures
        equal == (a@ == b@),
        equal == (encode_utf8(a@) == encode_utf8(b@)),
{
    let x = a.as_bytes();
    let y = b.as_bytes();
    let equal = x.len() == y.len() && bytes::bytes_match_at(x, 0, y);
    proof {
        if x@.len() == y@.len() {
            assert(x@.subrange(0, y@.len() as int) =~= x@);
        }
        encode_utf8_decode_utf8(a@);
        encode_utf8_decode_utf8(b@);
    }
    equal
}

/// The delimiters of strings.
fn lexical_string_delimiters(config: &EditorLanguageConfiguration) -> (delimiters: Vec<String>)
    ensures
        encoded(delimiters@) == lexical_tokens(config@).delimiters,
{
    let mut delimiters: Vec<String> = Vec::new();
    let mut i: usize = 0;
    while i < config.string_delimiters.len()
        invariant
            i <= config.string_delimiters@.len(),
            delimiters@.len() == i,
            forall|k: int|
                0 <= k < i ==> (#[trigger] delimiters@[k])@ == config.string_delimiters@[k]@,
        decreases config.string_delimiters.len() - i,
    {
        delimiters.push(config.string_delimiters[i].clone());
        i = i + 1;
    }
    let ghost configured = encoded(config.string_delimiters@);
    assert(encoded(delimiters@) =~= configured + quote_delimiters(config@.auto_closing_pairs, 0));
    let mut j: usize = 0;
    while j < config.auto_closing_pairs.len()
        invariant
            j <= config.auto_closing_pairs@.len(),
            config@.auto_closing_pairs == config.auto_closing_pairs@,
            encoded(delimiters@) == configured + quote_delimiters(
                config@.auto_closing_pairs,
                j as int,
            ),
        decreases config.auto_closing_pairs.len() - j,
    {
        let pair = &config.auto_closing_pairs[j];
        if equal_strings(pair.open.as_str(), pair.close.as_str()) && is_quote(
            pair.open.as_str().as_bytes(),
        ) {
            let ghost before = delimiters@;
            delimiters.push(pair.open.clone());
            proof {
                let open = encode_utf8(pair.open@);
                assert(encoded(delimiters@) =~= encoded(before).push(open));
                let quotes = quote_delimiters(config@.auto_closing_pairs, j as int);
                assert(config@.auto_closing_pairs[j as int] == *pair);
                assert(quote_delimiters(config@.auto_closing_pairs, j + 1) == quotes.push(open));
                assert((configured + quotes).push(open) =~= configured + quotes.push(open));
            }
        }
        j = j + 1;
    }
    delimiters
}

/// The number of the longest delimiter at `offset`.
fn find_delimiter(t: &[u8], offset: usize, delimiters: &Vec<String>) -> (found: Option<usize>)
    ensures
        match found {
            Some(i) => i < delimiters@.len() && longest_token(
                t@,
                offset as int,
                encoded(delimiters@),
                delimiters@.len() as int,
            ) == Some(encoded(delimiters@)[i as int]) && bytes::matches_at(
                t@,
                offset as int,
                encoded(delimiters@)[i as int],
            ),
            None => longest_token(
                t@,
                offset as int,
                encoded(delimiters@),
                delimiters@.len() as int,
            ) is None,
        },
{
    let ghost dv = encoded(delimiters@);
    let mut found: Option<usize> = None;
    let mut i: usize = 0;
    while i < delimiters.len()
        invariant
            dv == encoded(delimiters@),
            i <= delimiters@.len(),
            match found {
                Some(k) => k < i && longest_token(t@, offset as int, dv, i as int) == Some(
                    dv[k as int],
                ) && bytes::matches_at(t@, offset as int, dv[k as int]),
                None => longest_token(t@, offset as int, dv, i as int) is None,
            },
        decreases delimiters.len() - i,
    {
        assert(dv[i as int] == encode_utf8(delimiters@[i as int]@));
        let token = delimiters[i].as_str().as_bytes();
        if bytes::bytes_match_at(t, offset, token) {
            let longer = match found {
                Some(k) => {
                    assert(dv[k as int] == encode_utf8(delimiters@[k as int]@));
                    delimiters[k].as_str().as_bytes().len() < token.len()
                },
                None => true,
            };
            if longer {
                found = Some(i);
            }
        }
        i = i + 1;
    }
    found
}

/// A matched token ends on a boundary.
proof fn lemma_token_boundary(t: Seq<u8>, o: int, token: Seq<char>)
    requires
        valid_utf8(t),
        text::is_boundary(t, o),
        bytes::matches_at(t, o, encode_utf8(token)),
    ensures
        text::is_boundary(t, o + encode_utf8(token).len()),
        o + encode_utf8(token).len() <= t.len(),
{
    let b = encode_utf8(token);
    let e = o + b.len();
    encode_utf8_valid_utf8(token);
    text::lemma_boundary(t, o);
    valid_utf8_split(t, o);
    let tail = t.subrange(o, t.len() as int);
    assert(tail.subrange(0, b.len() as int) =~= b);
    if e < t.len() {
        lemma_valid_prefix(tail, b.len() as int);
        assert(tail[b.len() as int] == t[e]);
    }
}

/// Where a text that is not empty occurs in another, its ends are boundaries.
pub proof fn lemma_match_boundaries(t: Seq<u8>, at: int, token: Seq<char>)
    requires
        valid_utf8(t),
        bytes::matches_at(t, at, encode_utf8(token)),
        encode_utf8(token).len() > 0,
    ensures
        text::is_boundary(t, at),
        text::is_boundary(t, at + encode_utf8(token).len()),
        at + encode_utf8(token).len() <= t.len(),
{
    let b = encode_utf8(token);
    encode_utf8_valid_utf8(token);
    assert(valid_first_scalar(b));
    assert(t.subrange(at, at + b.len())[0] == t[at]);
    assert(!is_continuation_byte(b[0]));
    lemma_token_boundary(t, at, token);
}

/// What follows a well-formed prefix of well-formed text starts a character.
proof fn lemma_valid_prefix(t: Seq<u8>, n: int)
    requires
        valid_utf8(t),
        0 <= n < t.len(),
        valid_utf8(t.subrange(0, n)),
    ensures
        !is_continuation_byte(t[n]),
    decreases n,
{
    if n == 0 {
        assert(valid_first_scalar(t));
    } else {
        let head = t.subrange(0, n);
        assert(valid_first_scalar(head));
        let len = length_of_first_scalar(head);
        assert(length_of_first_scalar(t) == len);
        let rest = pop_first_scalar(t);
        assert(pop_first_scalar(head) =~= rest.subrange(0, n - len));
        lemma_valid_prefix(rest, n - len);
        assert(rest[n - len] == t[n]);
    }
}

/// What begins at `offset` in code, and where it leads.
fn find_code_token(
    t: &[u8],
    offset: usize,
    config: &EditorLanguageConfiguration,
    delimiters: &Vec<String>,
    Ghost(chars): Ghost<Seq<char>>,
) -> (found: Option<(usize, LexicalState)>)
    requires
        t@ == encode_utf8(chars),
        offset < t@.len(),
        text::is_boundary(t@, offset as int),
        tokens_wf(config@),
        encoded(delimiters@) == lexical_tokens(config@).delimiters,
    ensures
        match found {
            Some((next, state)) => state_wf(state, encoded(delimiters@)) && code_token(
                t@,
                offset as int,
                lexical_tokens(config@),
            ) == Some((next as int, state_view(state, encoded(delimiters@)))) && offset < next
                <= t@.len() && text::is_boundary(t@, next as int),
            None => code_token(t@, offset as int, lexical_tokens(config@)) is None,
        },
{
    proof {
        encode_utf8_valid_utf8(chars);
        assert(t.len() == t@.len());
    }
    if let Some(line) = config.line_comment.as_ref() {
        if bytes::bytes_match_at(t, offset, line.as_str().as_bytes()) {
            proof {
                lemma_token_boundary(t@, offset as int, line@);
            }
            return Some((offset + line.as_str().as_bytes().len(), LexicalState::LineComment));
        }
    }
    if let Some(block) = config.block_comment.as_ref() {
        if bytes::bytes_match_at(t, offset, block.open.as_str().as_bytes()) {
            proof {
                lemma_token_boundary(t@, offset as int, block.open@);
            }
            return Some((offset + block.open.as_str().as_bytes().len(), LexicalState::BlockComment));
        }
    }
    if let Some(i) = find_delimiter(t, offset, delimiters) {
        proof {
            lemma_token_boundary(t@, offset as int, delimiters@[i as int]@);
            assert(lexical_tokens(config@).delimiters[i as int].len() > 0);
        }
        return Some((offset + delimiters[i].as_str().as_bytes().len(), LexicalState::InString(i)));
    }
    None
}

/// One step of reading outside code, or over one character of it.
fn skip_one(
    t: &[u8],
    offset: usize,
    state: LexicalState,
    config: &EditorLanguageConfiguration,
    delimiters: &Vec<String>,
    Ghost(chars): Ghost<Seq<char>>,
) -> (result: (usize, LexicalState))
    requires
        t@ == encode_utf8(chars),
        offset < t@.len(),
        text::is_boundary(t@, offset as int),
        tokens_wf(config@),
        encoded(delimiters@) == lexical_tokens(config@).delimiters,
        state_wf(state, encoded(delimiters@)),
    ensures
        state_wf(result.1, encoded(delimiters@)),
        skip_step(
            t@,
            offset as int,
            state_view(state, encoded(delimiters@)),
            lexical_tokens(config@),
        ) == (result.0 as int, state_view(result.1, encoded(delimiters@))),
        offset < result.0 <= t@.len(),
        text::is_boundary(t@, result.0 as int),
{
    proof {
        encode_utf8_valid_utf8(chars);
        text::lemma_ceil_boundary(t@, offset + 1);
        assert(t.len() == t@.len());
    }
    match state {
        LexicalState::Code => {},
        LexicalState::LineComment => {
            if t[offset] == 10 {
                return (chars::next_boundary(t, offset), LexicalState::Code);
            }
        },
        LexicalState::BlockComment => {
            if let Some(block) = config.block_comment.as_ref() {
                if bytes::bytes_match_at(t, offset, block.close.as_str().as_bytes()) {
                    proof {
                        lemma_token_boundary(t@, offset as int, block.close@);
                    }
                    return (offset + block.close.as_str().as_bytes().len(), LexicalState::Code);
                }
            }
        },
        LexicalState::InString(i) => {
            assert(encoded(delimiters@)[i as int] == encode_utf8(delimiters@[i as int]@));
            let delimiter = delimiters[i].as_str().as_bytes();
            if bytes::bytes_match_at(t, offset, delimiter) && !escaped_at(t, offset) {
                proof {
                    lemma_token_boundary(t@, offset as int, delimiters@[i as int]@);
                    assert(lexical_tokens(config@).delimiters[i as int].len() > 0);
                }
                return (offset + delimiter.len(), LexicalState::Code);
            }
        },
    }
    (chars::next_boundary(t, offset), state)
}

/// The context at `target`.
pub(crate) fn lexical_context_at(
    text: &str,
    target: usize,
    config: &EditorLanguageConfiguration,
) -> (context: EditorTokenContext)
    requires
        tokens_wf(config@),
    ensures
        context == token_context(encode_utf8(text@), target as int, config@),
{
    let t = text.as_bytes();
    let delimiters = lexical_string_delimiters(config);
    let ghost dv = encoded(delimiters@);
    let ghost tokens = lexical_tokens(config@);
    let mut state = LexicalState::Code;
    let mut offset: usize = 0;
    while offset < target && offset < t.len()
        invariant
            t@ == encode_utf8(text@),
            tokens_wf(config@),
            dv == encoded(delimiters@),
            tokens == lexical_tokens(config@),
            dv == tokens.delimiters,
            offset <= t@.len(),
            text::is_boundary(t@, offset as int),
            state_wf(state, dv),
            lexical_at(t@, 0, Lexical::Code, target as int, tokens) == lexical_at(
                t@,
                offset as int,
                state_view(state, dv),
                target as int,
                tokens,
            ),
        decreases t.len() - offset,
    {
        let step = match state {
            LexicalState::Code => find_code_token(t, offset, config, &delimiters, Ghost(text@)),
            _ => None,
        };
        match step {
            Some((next, after)) => {
                offset = next;
                state = after;
            },
            None => {
                let (next, after) = skip_one(t, offset, state, config, &delimiters, Ghost(text@));
                offset = next;
                state = after;
            },
        }
    }
    match state {
        LexicalState::Code => EditorTokenContext::Code,
        LexicalState::InString(_) => EditorTokenContext::String,
        LexicalState::LineComment => EditorTokenContext::Comment,
        LexicalState::BlockComment => EditorTokenContext::Comment,
    }
}

/// A pair of which the editor wrote the closing half.
#[derive(Debug, PartialEq, Eq)]
pub struct TrackedAutoClosingPair {
    pub open: Range<usize>,
    pub close: Range<usize>,
    pub open_text: String,
    pub close_text: String,
}

/// What typing a character does where pairs are concerned.
#[derive(Debug, PartialEq, Eq)]
pub struct PairTypingPlan {
    pub replacement: String,
    pub selection_after: Range<usize>,
    pub tracked_pair: Option<TrackedAutoClosingPair>,
}

/// What a typing plan holds: the new text, the selection after it, and the
/// range and texts of the pair to track.
pub struct TypingModel {
    pub replacement: Seq<u8>,
    pub start: int,
    pub end: int,
    pub watched: Option<TrackedModel>,
}

pub struct TrackedModel {
    pub open: (int, int),
    pub close: (int, int),
    pub open_text: Seq<u8>,
    pub close_text: Seq<u8>,
}

impl TrackedAutoClosingPair {
    pub open spec fn model(self) -> TrackedModel {
        TrackedModel {
            open: (self.open.start as int, self.open.end as int),
            close: (self.close.start as int, self.close.end as int),
            open_text: encode_utf8(self.open_text@),
            close_text: encode_utf8(self.close_text@),
        }
    }
}

impl PairTypingPlan {
    pub open spec fn model(self) -> TypingModel {
        TypingModel {
            replacement: encode_utf8(self.replacement@),
            start: self.selection_after.start as int,
            end: self.selection_after.end as int,
            watched: match self.tracked_pair {
                Some(pair) => Some(pair.model()),
                None => None,
            },
        }
    }
}

/// Whether typing `typed` at `o` completes the opening token.
pub open spec fn completes_open(t: Seq<u8>, o: int, typed: Seq<u8>, open: Seq<u8>) -> bool {
    let lead = open.len() - typed.len();
    &&& lead >= 0
    &&& open.subrange(lead, open.len() as int) == typed
    &&& o >= lead
    &&& t.subrange(o - lead, o) == open.subrange(0, lead)
}

/// The last of the pairs with the longest opening token that typing completes.
pub open spec fn completed_pair(
    t: Seq<u8>,
    o: int,
    typed: Seq<u8>,
    pairs: Seq<EditorAutoClosingPair>,
    n: int,
) -> Option<int>
    decreases n,
{
    if n <= 0 {
        None
    } else {
        let before = completed_pair(t, o, typed, pairs, n - 1);
        let open = encode_utf8(pairs[n - 1].open@);
        if completes_open(t, o, typed, open) && (before is None || encode_utf8(
            pairs[before->Some_0].open@,
        ).len() <= open.len()) {
            Some(n - 1)
        } else {
            before
        }
    }
}

/// The characters before which a pair closes by itself.
pub open spec fn close_before(language: LanguageModel, quote: bool) -> Seq<char> {
    match language.auto_close_before {
        Some(characters) => characters@,
        None => if quote {
            ";:.,=}])> \n\t"@
        } else {
            "'\"`;:.,=}])> \n\t"@
        },
    }
}

/// Whether a closing token stands at `o`.
pub open spec fn at_closing_token(t: Seq<u8>, o: int, pairs: Seq<EditorAutoClosingPair>) -> bool {
    exists|i: int|
        0 <= i < pairs.len() && bytes::matches_at(t, o, encode_utf8((#[trigger] pairs[i]).close@))
}

/// Whether the pair closes by itself at `o`: not after a backslash or a word
/// where it is a quotation mark, not in its excluded contexts, and only at the
/// end of the text, before one of the characters that allow it, or before a
/// closing token.
pub open spec fn closes_at(
    t: Seq<u8>,
    o: int,
    typed: Seq<u8>,
    pair: EditorAutoClosingPair,
    language: LanguageModel,
) -> bool {
    let open = encode_utf8(pair.open@);
    let quote = is_quote_token(open);
    let before_open = o - (open.len() - typed.len());
    &&& !(quote && is_escaped(t, o))
    &&& !pair.not_in@.contains(token_context(t, o, language))
    &&& !(quote && before_open > 0 && chars::is_word_character(chars::char_before(t, before_open)))
    &&& o >= t.len() || close_before(language, quote).contains(chars::char_at(t, o))
        || at_closing_token(t, o, language.auto_closing_pairs)
}

/// What typing does to a selection that is not empty: it is put between the
/// tokens of the first surrounding pair that opens with what was typed, unless
/// it is blank, or a quotation mark to be quoted.
pub open spec fn surround_model(
    t: Seq<u8>,
    start: int,
    end: int,
    typed: Seq<u8>,
    language: LanguageModel,
) -> Option<TypingModel> {
    match surrounding_pair(typed, language.surrounding_pairs, 0) {
        Some(i) => {
            let pair = language.surrounding_pairs[i];
            let open = encode_utf8(pair.open@);
            let selected = t.subrange(start, end);
            let blank = forall|k: int|
                0 <= k < selected.len() ==> #[trigger] selected[k] == 32 || selected[k] == 9;
            let one_quote = selected.len() == 1 && (selected[0] == 39 || selected[0] == 34
                || selected[0] == 96);
            if blank || (is_quote_token(open) && one_quote) {
                None
            } else {
                Some(
                    TypingModel {
                        replacement: open + selected + encode_utf8(pair.close@),
                        start: start + open.len(),
                        end: start + open.len() + selected.len(),
                        watched: None,
                    },
                )
            }
        },
        None => None,
    }
}

/// The first pair at or after `i` that opens with what was typed.
pub open spec fn surrounding_pair(
    typed: Seq<u8>,
    pairs: Seq<EditorCharacterPair>,
    i: int,
) -> Option<int>
    decreases pairs.len() - i,
{
    if i < 0 || i >= pairs.len() {
        None
    } else if encode_utf8(pairs[i].open@) == typed {
        Some(i)
    } else {
        surrounding_pair(typed, pairs, i + 1)
    }
}

/// What typing `typed` over `start..end` does where pairs are concerned.
pub open spec fn typing_model(
    t: Seq<u8>,
    start: int,
    end: int,
    typed: Seq<char>,
    language: LanguageModel,
) -> Option<TypingModel> {
    let key = encode_utf8(typed);
    if typed.len() != 1 || !(0 <= start <= end <= t.len()) || !text::is_boundary(t, start)
        || !text::is_boundary(t, end) {
        None
    } else if start < end {
        surround_model(t, start, end, key, language)
    } else {
        let pairs = language.auto_closing_pairs;
        match completed_pair(t, start, key, pairs, pairs.len() as int) {
            Some(i) => if closes_at(t, start, key, pairs[i], language) {
                let close = encode_utf8(pairs[i].close@);
                let cursor = start + key.len();
                Some(
                    TypingModel {
                        replacement: key + close,
                        start: cursor,
                        end: cursor,
                        watched: Some(
                            TrackedModel {
                                open: (start, cursor),
                                close: (cursor, cursor + close.len()),
                                open_text: key,
                                close_text: close,
                            },
                        ),
                    },
                )
            } else {
                None
            },
            None => None,
        }
    }
}

fn typing_completes_open(t: &[u8], o: usize, typed: &[u8], open: &[u8]) -> (completes: bool)
    requires
        o <= t@.len(),
    ensures
        completes == completes_open(t@, o as int, typed@, open@),
{
    if typed.len() > open.len() {
        return false;
    }
    let lead: usize = open.len() - typed.len();
    if o < lead {
        return false;
    }
    let ends = bytes::bytes_match_at(open, lead, typed);
    let prefix = vstd::slice::slice_subrange(open, 0, lead);
    let starts = bytes::bytes_match_at(t, o - lead, prefix);
    ends && starts
}

fn find_completed_pair(
    t: &[u8],
    o: usize,
    typed: &[u8],
    pairs: &Vec<EditorAutoClosingPair>,
) -> (found: Option<usize>)
    requires
        o <= t@.len(),
    ensures
        match found {
            Some(i) => i < pairs@.len() && completed_pair(
                t@,
                o as int,
                typed@,
                pairs@,
                pairs@.len() as int,
            ) == Some(i as int) && completes_open(
                t@,
                o as int,
                typed@,
                encode_utf8(pairs@[i as int].open@),
            ),
            None => completed_pair(t@, o as int, typed@, pairs@, pairs@.len() as int) is None,
        },
{
    let mut found: Option<usize> = None;
    let mut n: usize = 0;
    while n < pairs.len()
        invariant
            o <= t@.len(),
            n <= pairs@.len(),
            match found {
                Some(i) => i < n && completed_pair(t@, o as int, typed@, pairs@, n as int) == Some(
                    i as int,
                ) && completes_open(
                    t@,
                    o as int,
                    typed@,
                    encode_utf8(pairs@[i as int].open@),
                ),
                None => completed_pair(t@, o as int, typed@, pairs@, n as int) is None,
            },
        decreases pairs.len() - n,
    {
        let open = pairs[n].open.as_str().as_bytes();
        if typing_completes_open(t, o, typed, open) {
            let longer = match found {
                Some(i) => pairs[i].open.as_str().as_bytes().len() <= open.len(),
                None => true,
            };
            if longer {
                found = Some(n);
            }
        }
        n = n + 1;
    }
    found
}

fn has_context(contexts: &Vec<EditorTokenContext>, context: EditorTokenContext) -> (found: bool)
    ensures
        found == contexts@.contains(context),
{
    let mut i: usize = 0;
    while i < contexts.len()
        invariant
            i <= contexts@.len(),
            forall|k: int| 0 <= k < i ==> contexts@[k] != context,
        decreases contexts.len() - i,
    {
        if contexts[i] == context {
            return true;
        }
        i = i + 1;
    }
    false
}

fn has_char(characters: &str, c: char) -> (found: bool)
    ensures
        found == characters@.contains(c),
{
    let all = chars::chars_of(characters);
    let mut i: usize = 0;
    while i < all.len()
        invariant
            all@ == characters@,
            i <= all@.len(),
            forall|k: int| 0 <= k < i ==> all@[k] != c,
        decreases all.len() - i,
    {
        if all[i] == c {
            return true;
        }
        i = i + 1;
    }
    false
}

fn auto_close_before(config: &EditorLanguageConfiguration, quote: bool) -> (characters: &str)
    ensures
        characters@ == close_before(config@, quote),
{
    match &config.auto_close_before {
        Some(characters) => characters.as_str(),
        None => if quote {
            ";:.,=}])> \n\t"
        } else {
            "'\"`;:.,=}])> \n\t"
        },
    }
}

fn is_at_closing_token(t: &[u8], o: usize, pairs: &Vec<EditorAutoClosingPair>) -> (found: bool)
    ensures
        found == at_closing_token(t@, o as int, pairs@),
{
    let mut i: usize = 0;
    while i < pairs.len()
        invariant
            i <= pairs@.len(),
            forall|k: int|
                0 <= k < i ==> !bytes::matches_at(
                    t@,
                    o as int,
                    encode_utf8((#[trigger] pairs@[k]).close@),
                ),
        decreases pairs.len() - i,
    {
        if bytes::bytes_match_at(t, o, pairs[i].close.as_str().as_bytes()) {
            assert(bytes::matches_at(t@, o as int, encode_utf8(pairs@[i as int].close@)));
            return true;
        }
        i = i + 1;
    }
    false
}

/// A prefix matched before a boundary starts on one.
proof fn lemma_prefix_boundary(t: Seq<u8>, o: int, typed: Seq<char>, open: Seq<char>)
    requires
        valid_utf8(t),
        0 <= o <= t.len(),
        text::is_boundary(t, o),
        typed.len() > 0,
        completes_open(t, o, encode_utf8(typed), encode_utf8(open)),
    ensures
        text::is_boundary(t, o - (encode_utf8(open).len() - encode_utf8(typed).len())),
{
    let lead = encode_utf8(open).len() - encode_utf8(typed).len();
    let b = encode_utf8(open);
    encode_utf8_valid_utf8(open);
    if 0 < lead && o - lead > 0 {
        assert(t.subrange(o - lead, o)[0] == t[o - lead]);
        assert(b.subrange(0, lead)[0] == b[0]);
        is_char_boundary_start_end_of_seq(b);
        is_char_boundary_iff_not_is_continuation_byte(b, 0);
    }
}

fn pair_closes_at(
    text: &str,
    o: usize,
    typed: &str,
    pair: &EditorAutoClosingPair,
    config: &EditorLanguageConfiguration,
) -> (closes: bool)
    requires
        tokens_wf(config@),
        o <= encode_utf8(text@).len(),
        text::is_boundary(encode_utf8(text@), o as int),
        typed@.len() > 0,
        completes_open(
            encode_utf8(text@),
            o as int,
            encode_utf8(typed@),
            encode_utf8(pair.open@),
        ),
    ensures
        closes == closes_at(encode_utf8(text@), o as int, encode_utf8(typed@), *pair, config@),
{
    let t = text.as_bytes();
    let open = pair.open.as_str().as_bytes();
    let quote = is_quote(open);
    if quote && escaped_at(t, o) {
        return false;
    }
    if has_context(&pair.not_in, lexical_context_at(text, o, config)) {
        return false;
    }
    let before_open: usize = o - (open.len() - typed.as_bytes().len());
    if quote && before_open > 0 {
        proof {
            encode_utf8_valid_utf8(text@);
            lemma_prefix_boundary(t@, o as int, typed@, pair.open@);
        }
        if chars::check_word_character(chars::read_char_before(text, before_open)) {
            return false;
        }
    }
    if o < t.len() {
        let (after, _) = chars::read_char(text, o);
        return has_char(auto_close_before(config, quote), after) || is_at_closing_token(
            t,
            o,
            &config.auto_closing_pairs,
        );
    }
    true
}

fn find_surrounding_pair(typed: &str, pairs: &Vec<EditorCharacterPair>) -> (found: Option<usize>)
    ensures
        match found {
            Some(i) => i < pairs@.len() && surrounding_pair(
                encode_utf8(typed@),
                pairs@,
                0,
            ) == Some(i as int),
            None => surrounding_pair(encode_utf8(typed@), pairs@, 0) is None,
        },
{
    let mut i: usize = 0;
    while i < pairs.len()
        invariant
            i <= pairs@.len(),
            surrounding_pair(encode_utf8(typed@), pairs@, 0) == surrounding_pair(
                encode_utf8(typed@),
                pairs@,
                i as int,
            ),
        decreases pairs.len() - i,
    {
        if equal_strings(pairs[i].open.as_str(), typed) {
            return Some(i);
        }
        i = i + 1;
    }
    None
}

fn is_all_blank(s: &[u8]) -> (blank: bool)
    ensures
        blank == forall|k: int| 0 <= k < s@.len() ==> #[trigger] s@[k] == 32 || s@[k] == 9,
{
    let mut i: usize = 0;
    while i < s.len()
        invariant
            i <= s@.len(),
            forall|k: int| 0 <= k < i ==> #[trigger] s@[k] == 32 || s@[k] == 9,
        decreases s.len() - i,
    {
        if s[i] != 32 && s[i] != 9 {
            return false;
        }
        i = i + 1;
    }
    true
}

fn surround_selection_plan(
    text: &str,
    selection: &Range<usize>,
    typed: &str,
    config: &EditorLanguageConfiguration,
) -> (plan: Option<PairTypingPlan>)
    requires
        selection.start < selection.end <= encode_utf8(text@).len(),
        text::is_boundary(encode_utf8(text@), selection.start as int),
        text::is_boundary(encode_utf8(text@), selection.end as int),
        encode_utf8(text@).len() + encode_utf8(typed@).len() <= usize::MAX,
    ensures
        match plan {
            Some(plan) => surround_model(
                encode_utf8(text@),
                selection.start as int,
                selection.end as int,
                encode_utf8(typed@),
                config@,
            ) == Some(plan.model()),
            None => surround_model(
                encode_utf8(text@),
                selection.start as int,
                selection.end as int,
                encode_utf8(typed@),
                config@,
            ) is None,
        },
{
    let ghost t = encode_utf8(text@);
    let i: usize = match find_surrounding_pair(typed, &config.surrounding_pairs) {
        Some(i) => i,
        None => {
            return None;
        },
    };
    let pair = &config.surrounding_pairs[i];
    proof {
        lemma_surrounding_pair(encode_utf8(typed@), config.surrounding_pairs@, 0);
    }
    let selected = text::slice_text(text, selection.start, selection.end);
    let bytes = selected.as_str().as_bytes();
    let open = pair.open.as_str().as_bytes();
    let blank = is_all_blank(bytes);
    if blank {
        return None;
    }
    let one_quote = bytes.len() == 1 && (bytes[0] == 39 || bytes[0] == 34 || bytes[0] == 96);
    if is_quote(open) && one_quote {
        return None;
    }
    let start: usize = selection.start + open.len();
    let end: usize = start + bytes.len();
    let mut replacement = pair.open.clone();
    text::push_text(&mut replacement, selected.as_str());
    text::push_text(&mut replacement, pair.close.as_str());
    Some(PairTypingPlan { replacement, selection_after: start..end, tracked_pair: None })
}

proof fn lemma_surrounding_pair(typed: Seq<u8>, pairs: Seq<EditorCharacterPair>, from: int)
    requires
        0 <= from,
    ensures
        surrounding_pair(typed, pairs, from) matches Some(i) ==> from <= i < pairs.len()
            && encode_utf8(pairs[i].open@) == typed,
    decreases pairs.len() - from,
{
    if from < pairs.len() && encode_utf8(pairs[from].open@) != typed {
        lemma_surrounding_pair(typed, pairs, from + 1);
    }
}

/// Plans what typing one character does where pairs are concerned: put the
/// selection between a pair, or write the closing half of a pair.
pub fn pair_typing_plan(
    text: &str,
    selection: Range<usize>,
    typed: &str,
    config: &EditorLanguageConfiguration,
) -> (plan: Option<PairTypingPlan>)
    requires
        tokens_wf(config@),
        encode_utf8(text@).len() + encode_utf8(typed@).len() <= usize::MAX,
        forall|i: int|
            #![trigger config@.auto_closing_pairs[i]]
            0 <= i < config@.auto_closing_pairs.len() ==> encode_utf8(text@).len() + encode_utf8(
                typed@,
            ).len() + encode_utf8(config@.auto_closing_pairs[i].close@).len() <= usize::MAX,
    ensures
        match plan {
            Some(plan) => typing_model(
                encode_utf8(text@),
                selection.start as int,
                selection.end as int,
                typed@,
                config@,
            ) == Some(plan.model()),
            None => typing_model(
                encode_utf8(text@),
                selection.start as int,
                selection.end as int,
                typed@,
                config@,
            ) is None,
        },
{
    let ghost t = encode_utf8(text@);
    let bytes = text.as_bytes();
    if typed.unicode_len() != 1 || selection.start > selection.end || selection.end > bytes.len() {
        return None;
    }
    proof {
        encode_utf8_valid_utf8(text@);
        text::lemma_boundary(t, selection.start as int);
        text::lemma_boundary(t, selection.end as int);
    }
    if !text.is_char_boundary(selection.start) || !text.is_char_boundary(selection.end) {
        return None;
    }
    if selection.start < selection.end {
        return surround_selection_plan(text, &selection, typed, config);
    }
    let o: usize = selection.start;
    let i: usize = match find_completed_pair(
        bytes,
        o,
        typed.as_bytes(),
        &config.auto_closing_pairs,
    ) {
        Some(i) => i,
        None => {
            return None;
        },
    };
    let pair = &config.auto_closing_pairs[i];
    if !pair_closes_at(text, o, typed, pair, config) {
        return None;
    }
    assert(config@.auto_closing_pairs[i as int] == *pair);
    let cursor: usize = o + typed.as_bytes().len();
    let close_end: usize = cursor + pair.close.as_str().as_bytes().len();
    let mut replacement = typed.to_owned();
    text::push_text(&mut replacement, pair.close.as_str());
    Some(
        PairTypingPlan {
            replacement,
            selection_after: cursor..cursor,
            tracked_pair: Some(
                TrackedAutoClosingPair {
                    open: o..cursor,
                    close: cursor..close_end,
                    open_text: typed.to_owned(),
                    close_text: pair.close.clone(),
                },
            ),
        },
    )
}

/// Whether `start..end` is a range of the text that reads `s`.
pub open spec fn reads(t: Seq<u8>, start: int, end: int, s: Seq<u8>) -> bool {
    0 <= start <= end <= t.len() && text::is_boundary(t, start) && text::is_boundary(t, end)
        && t.subrange(start, end) == s
}

fn range_reads(text: &str, range: &Range<usize>, s: &str) -> (same: bool)
    ensures
        same == reads(
            encode_utf8(text@),
            range.start as int,
            range.end as int,
            encode_utf8(s@),
        ),
{
    let ghost t = encode_utf8(text@);
    let bytes = text.as_bytes();
    if range.start > range.end || range.end > bytes.len() {
        return false;
    }
    proof {
        encode_utf8_valid_utf8(text@);
        text::lemma_boundary(t, range.start as int);
        text::lemma_boundary(t, range.end as int);
    }
    let same = text.is_char_boundary(range.start) && text.is_char_boundary(range.end) && range.end
        - range.start == s.as_bytes().len() && bytes::bytes_match_at(
        bytes,
        range.start,
        s.as_bytes(),
    );
    same
}

/// Whether typing at `cursor` types over the closing half of a watched pair.
pub open spec fn overtypes(t: Seq<u8>, cursor: int, typed: Seq<u8>, pair: TrackedModel) -> bool {
    pair.close.0 == cursor && pair.close_text == typed && reads(
        t,
        pair.close.0,
        pair.close.1,
        pair.close_text,
    )
}

/// The first pair at or after `i` whose closing half is typed over.
pub open spec fn overtyped_pair(
    t: Seq<u8>,
    cursor: int,
    typed: Seq<u8>,
    watched: Seq<TrackedAutoClosingPair>,
    i: int,
) -> Option<int>
    decreases watched.len() - i,
{
    if i < 0 || i >= watched.len() {
        None
    } else if overtypes(t, cursor, typed, watched[i].model()) {
        Some(i)
    } else {
        overtyped_pair(t, cursor, typed, watched, i + 1)
    }
}

/// The watched pair whose closing half is typed over, and where the caret goes.
pub fn overtype_target(
    text: &str,
    cursor: usize,
    typed: &str,
    watched: &[TrackedAutoClosingPair],
) -> (target: Option<(usize, usize)>)
    ensures
        match target {
            Some((i, end)) => overtyped_pair(
                encode_utf8(text@),
                cursor as int,
                encode_utf8(typed@),
                watched@,
                0,
            ) == Some(i as int) && i < watched@.len() && end == watched@[i as int].close.end,
            None => overtyped_pair(
                encode_utf8(text@),
                cursor as int,
                encode_utf8(typed@),
                watched@,
                0,
            ) is None,
        },
{
    let mut i: usize = 0;
    while i < watched.len()
        invariant
            i <= watched@.len(),
            overtyped_pair(
                encode_utf8(text@),
                cursor as int,
                encode_utf8(typed@),
                watched@,
                0,
            ) == overtyped_pair(
                encode_utf8(text@),
                cursor as int,
                encode_utf8(typed@),
                watched@,
                i as int,
            ),
        decreases watched.len() - i,
    {
        let pair = &watched[i];
        if pair.close.start == cursor && equal_strings(pair.close_text.as_str(), typed)
            && range_reads(text, &pair.close, pair.close_text.as_str()) {
            return Some((i, pair.close.end));
        }
        i = i + 1;
    }
    None
}

/// Whether the caret stands between the halves of an empty watched pair.
pub open spec fn is_between(t: Seq<u8>, cursor: int, pair: TrackedModel) -> bool {
    &&& pair.open.1 == cursor
    &&& pair.close.0 == cursor
    &&& reads(t, pair.open.0, pair.open.1, pair.open_text)
    &&& reads(t, pair.close.0, pair.close.1, pair.close_text)
}

/// The first pair at or after `i` between whose halves the caret stands.
pub open spec fn pair_around(
    t: Seq<u8>,
    cursor: int,
    watched: Seq<TrackedAutoClosingPair>,
    i: int,
) -> Option<int>
    decreases watched.len() - i,
{
    if i < 0 || i >= watched.len() {
        None
    } else if is_between(t, cursor, watched[i].model()) {
        Some(i)
    } else {
        pair_around(t, cursor, watched, i + 1)
    }
}

/// What Backspace removes where the caret stands between the halves of an
/// empty watched pair: both halves.
pub fn paired_backspace_range(text: &str, cursor: usize, watched: &[TrackedAutoClosingPair]) -> (
range: Option<Range<usize>>)
    ensures
        match range {
            Some(range) => pair_around(
                encode_utf8(text@),
                cursor as int,
                watched@,
                0,
            ) matches Some(i) && 0 <= i < watched@.len() && range.start == watched@[i].open.start
                && range.end == watched@[i].close.end,
            None => pair_around(encode_utf8(text@), cursor as int, watched@, 0) is None,
        },
{
    let mut i: usize = 0;
    while i < watched.len()
        invariant
            i <= watched@.len(),
            pair_around(encode_utf8(text@), cursor as int, watched@, 0) == pair_around(
                encode_utf8(text@),
                cursor as int,
                watched@,
                i as int,
            ),
        decreases watched.len() - i,
    {
        let pair = &watched[i];
        if pair.open.end == cursor && pair.close.start == cursor && range_reads(
            text,
            &pair.open,
            pair.open_text.as_str(),
        ) && range_reads(text, &pair.close, pair.close_text.as_str()) {
            return Some(pair.open.start..pair.close.end);
        }
        i = i + 1;
    }
    None
}

/// `x` moved by `delta`, within what an offset can hold.
pub open spec fn moved(x: int, delta: int) -> int {
    if x + delta < 0 {
        0
    } else if x + delta > usize::MAX {
        usize::MAX as int
    } else {
        x + delta
    }
}

pub open spec fn moved_range(range: (int, int), delta: int) -> (int, int) {
    (moved(range.0, delta), moved(range.1, delta))
}

/// A watched pair after an edit of `start..end` that inserts `inserted` bytes:
/// moved by an edit before it, its closing half moved by one between the
/// halves, given up where the edit touches a half.
pub open spec fn adjusted_pair(pair: TrackedModel, start: int, end: int, inserted: int) -> Option<
    TrackedModel,
> {
    let empty = start >= end;
    let delta = inserted - if empty {
        0
    } else {
        end - start
    };
    let whole = TrackedModel {
        open: moved_range(pair.open, delta),
        close: moved_range(pair.close, delta),
        ..pair
    };
    let inner = TrackedModel { close: moved_range(pair.close, delta), ..pair };
    if empty {
        if start <= pair.open.0 {
            Some(whole)
        } else if start >= pair.open.1 && start <= pair.close.0 {
            Some(inner)
        } else if start >= pair.close.1 {
            Some(pair)
        } else {
            None
        }
    } else if end <= pair.open.0 {
        Some(whole)
    } else if start >= pair.close.1 {
        Some(pair)
    } else if start >= pair.open.1 && end <= pair.close.0 {
        Some(inner)
    } else {
        None
    }
}

/// The first `n` watched pairs after an edit.
pub open spec fn adjusted_pairs(
    pairs: Seq<TrackedAutoClosingPair>,
    start: int,
    end: int,
    inserted: int,
    n: int,
) -> Seq<TrackedModel>
    decreases n,
{
    if n <= 0 {
        Seq::empty()
    } else {
        let before = adjusted_pairs(pairs, start, end, inserted, n - 1);
        match adjusted_pair(pairs[n - 1].model(), start, end, inserted) {
            Some(pair) => before.push(pair),
            None => before,
        }
    }
}

pub open spec fn pair_models(pairs: Seq<TrackedAutoClosingPair>) -> Seq<TrackedModel> {
    Seq::new(pairs.len(), |i: int| pairs[i].model())
}

fn move_offset(x: usize, removed: usize, inserted: usize) -> (y: usize)
    ensures
        y == moved(x as int, inserted - removed),
{
    if inserted >= removed {
        let delta: usize = inserted - removed;
        if x <= usize::MAX - delta {
            x + delta
        } else {
            usize::MAX
        }
    } else {
        let delta: usize = removed - inserted;
        if x >= delta {
            x - delta
        } else {
            0
        }
    }
}

fn move_range(range: &Range<usize>, removed: usize, inserted: usize) -> (after: Range<usize>)
    ensures
        (after.start as int, after.end as int) == moved_range(
            (range.start as int, range.end as int),
            inserted - removed,
        ),
{
    move_offset(range.start, removed, inserted)..move_offset(range.end, removed, inserted)
}

/// Follows the watched pairs through an edit.
pub fn adjust_tracked_pairs_for_edit(
    pairs: &mut Vec<TrackedAutoClosingPair>,
    edit: &Range<usize>,
    inserted_len: usize,
)
    ensures
        pair_models(final(pairs)@) == adjusted_pairs(
            old(pairs)@,
            edit.start as int,
            edit.end as int,
            inserted_len as int,
            old(pairs)@.len() as int,
        ),
{
    let ghost before = pairs@;
    let ghost (s, e, n) = (edit.start as int, edit.end as int, inserted_len as int);
    let empty = edit.start >= edit.end;
    let removed: usize = if empty {
        0
    } else {
        edit.end - edit.start
    };
    let mut kept: Vec<TrackedAutoClosingPair> = Vec::new();
    let mut i: usize = 0;
    assert(pair_models(kept@) =~= adjusted_pairs(before, s, e, n, 0));
    while i < pairs.len()
        invariant
            pairs@ == before,
            (s, e, n) == (edit.start as int, edit.end as int, inserted_len as int),
            empty == (edit.start >= edit.end),
            removed == (if empty {
                0
            } else {
                edit.end - edit.start
            }),
            i <= pairs@.len(),
            pair_models(kept@) == adjusted_pairs(before, s, e, n, i as int),
        decreases pairs.len() - i,
    {
        let pair = &pairs[i];
        let before_open = if empty {
            edit.start <= pair.open.start
        } else {
            edit.end <= pair.open.start
        };
        let inside = edit.start >= pair.open.end && (if empty {
            edit.start <= pair.close.start
        } else {
            edit.end <= pair.close.start
        });
        let after_close = edit.start >= pair.close.end;
        let first = before_open;
        let second = if empty {
            inside
        } else {
            inside && !after_close
        };
        if first || second || after_close {
            let open = if first {
                move_range(&pair.open, removed, inserted_len)
            } else {
                pair.open.start..pair.open.end
            };
            let close = if first || second {
                move_range(&pair.close, removed, inserted_len)
            } else {
                pair.close.start..pair.close.end
            };
            let adjusted = TrackedAutoClosingPair {
                open,
                close,
                open_text: pair.open_text.clone(),
                close_text: pair.close_text.clone(),
            };
            let ghost so_far = kept@;
            kept.push(adjusted);
            assert(pair_models(kept@) =~= pair_models(so_far).push(adjusted.model()));
            assert(adjusted_pair(before[i as int].model(), s, e, n) == Some(adjusted.model()));
        }
        i = i + 1;
    }
    *pairs = kept;
}

/// An opening and a closing bracket that belong together.
#[derive(Debug, PartialEq, Eq)]
pub struct BracketMatch {
    pub open: Range<usize>,
    pub close: Range<usize>,
}

pub open spec fn match_view(found: BracketMatch) -> ((int, int), (int, int)) {
    (
        (found.open.start as int, found.open.end as int),
        (found.close.start as int, found.close.end as int),
    )
}

pub open spec fn match_views(found: Seq<BracketMatch>) -> Seq<((int, int), (int, int))> {
    Seq::new(found.len(), |i: int| match_view(found[i]))
}

/// The better of two bracket tokens at one offset: the longer, else the later.
pub open spec fn better_token(
    t: Seq<u8>,
    o: int,
    best: Option<(int, bool, int)>,
    index: int,
    closes: bool,
    token: Seq<u8>,
) -> Option<(int, bool, int)> {
    if bytes::matches_at(t, o, token) && (best is None || (best->Some_0).2 <= token.len()) {
        Some((index, closes, token.len() as int))
    } else {
        best
    }
}

/// The bracket token at `o`, from the first `n` pairs: the number of its pair,
/// whether it closes, and its length.
pub open spec fn bracket_token(
    t: Seq<u8>,
    o: int,
    brackets: Seq<EditorCharacterPair>,
    n: int,
) -> Option<(int, bool, int)>
    decreases n,
{
    if n <= 0 {
        None
    } else {
        let before = bracket_token(t, o, brackets, n - 1);
        let opening = better_token(
            t,
            o,
            before,
            n - 1,
            false,
            encode_utf8(brackets[n - 1].open@),
        );
        better_token(t, o, opening, n - 1, true, encode_utf8(brackets[n - 1].close@))
    }
}

/// What a scan for brackets has come to: the offset, what it is in, the
/// brackets still open, and the pairs found.
pub struct Scan {
    pub offset: int,
    pub state: Lexical,
    pub open: Seq<(int, int, int)>,
    pub found: Seq<((int, int), (int, int))>,
}

/// One step of a scan. A closing bracket closes the last open one if that is
/// of its pair, else it is passed over.
pub open spec fn scan_step(t: Seq<u8>, scan: Scan, language: LanguageModel) -> Scan {
    let tokens = lexical_tokens(language);
    let o = scan.offset;
    if !(scan.state is Code) {
        let (next, state) = skip_step(t, o, scan.state, tokens);
        Scan { offset: next, state, ..scan }
    } else if code_token(t, o, tokens) is Some {
        let (next, state) = code_token(t, o, tokens)->Some_0;
        Scan { offset: next, state, ..scan }
    } else {
        match bracket_token(t, o, language.brackets, language.brackets.len() as int) {
            Some((index, closes, len)) => if !closes {
                Scan { offset: o + len, open: scan.open.push((index, o, o + len)), ..scan }
            } else if scan.open.len() > 0 && scan.open.last().0 == index {
                Scan {
                    offset: o + len,
                    open: scan.open.drop_last(),
                    found: scan.found.push(
                        ((scan.open.last().1, scan.open.last().2), (o, o + len)),
                    ),
                    ..scan
                }
            } else {
                Scan { offset: o + len, ..scan }
            },
            None => Scan { offset: text::ceil_boundary(t, o + 1), ..scan },
        }
    }
}

/// The pairs that a scan finds to the end of the text.
pub open spec fn scan_rest(t: Seq<u8>, scan: Scan, language: LanguageModel) -> Seq<
    ((int, int), (int, int)),
>
    decreases t.len() - scan.offset,
{
    if scan.offset < 0 || scan.offset >= t.len() {
        scan.found
    } else {
        let next = scan_step(t, scan, language);
        if next.offset <= scan.offset || next.offset > t.len() {
            next.found
        } else {
            scan_rest(t, next, language)
        }
    }
}

/// The pairs of brackets in code, by where they open.
pub open spec fn bracket_pairs(t: Seq<u8>, language: LanguageModel) -> Seq<
    ((int, int), (int, int)),
> {
    let found = scan_rest(
        t,
        Scan { offset: 0, state: Lexical::Code, open: Seq::empty(), found: Seq::empty() },
        language,
    );
    let keys = Seq::new(found.len(), |i: int| (found[i].0.0, 0int));
    let order = order::sorted_order(keys, found.len() as int);
    Seq::new(found.len(), |i: int| found[order[i]])
}

fn find_bracket_token(t: &[u8], o: usize, brackets: &Vec<EditorCharacterPair>) -> (found: Option<
    (usize, bool, usize),
>)
    ensures
        match found {
            Some((index, closes, len)) => bracket_token(
                t@,
                o as int,
                brackets@,
                brackets@.len() as int,
            ) == Some((index as int, closes, len as int)) && index < brackets@.len()
                && bytes::matches_at(
                t@,
                o as int,
                encode_utf8(
                    if closes {
                        brackets@[index as int].close@
                    } else {
                        brackets@[index as int].open@
                    },
                ),
            ) && len == encode_utf8(
                if closes {
                    brackets@[index as int].close@
                } else {
                    brackets@[index as int].open@
                },
            ).len(),
            None => bracket_token(t@, o as int, brackets@, brackets@.len() as int) is None,
        },
{
    let mut found: Option<(usize, bool, usize)> = None;
    let mut n: usize = 0;
    while n < brackets.len()
        invariant
            n <= brackets@.len(),
            match found {
                Some((index, closes, len)) => bracket_token(
                    t@,
                    o as int,
                    brackets@,
                    n as int,
                ) == Some((index as int, closes, len as int)) && index < n && bytes::matches_at(
                    t@,
                    o as int,
                    encode_utf8(
                        if closes {
                            brackets@[index as int].close@
                        } else {
                            brackets@[index as int].open@
                        },
                    ),
                ) && len == encode_utf8(
                    if closes {
                        brackets@[index as int].close@
                    } else {
                        brackets@[index as int].open@
                    },
                ).len(),
                None => bracket_token(t@, o as int, brackets@, n as int) is None,
            },
        decreases brackets.len() - n,
    {
        let open = brackets[n].open.as_str().as_bytes();
        if bytes::bytes_match_at(t, o, open) {
            let better = match found {
                Some((_, _, len)) => len <= open.len(),
                None => true,
            };
            if better {
                found = Some((n, false, open.len()));
            }
        }
        let close = brackets[n].close.as_str().as_bytes();
        if bytes::bytes_match_at(t, o, close) {
            let better = match found {
                Some((_, _, len)) => len <= close.len(),
                None => true,
            };
            if better {
                found = Some((n, true, close.len()));
            }
        }
        n = n + 1;
    }
    found
}

spec fn open_view(open: Seq<(usize, usize, usize)>) -> Seq<(int, int, int)> {
    Seq::new(open.len(), |i: int| (open[i].0 as int, open[i].1 as int, open[i].2 as int))
}

/// Finds the pairs of brackets in code.
fn scan_text(text: &str, config: &EditorLanguageConfiguration) -> (found: Vec<BracketMatch>)
    requires
        brackets_wf(config@),
    ensures
        match_views(found@) == scan_rest(
            encode_utf8(text@),
            (Scan { offset: 0, state: Lexical::Code, open: Seq::empty(), found: Seq::empty() }),
            config@,
        ),
{
    let t = text.as_bytes();
    let delimiters = lexical_string_delimiters(config);
    let ghost dv = encoded(delimiters@);
    let ghost tokens = lexical_tokens(config@);
    let ghost start = Scan {
        offset: 0,
        state: Lexical::Code,
        open: Seq::empty(),
        found: Seq::empty(),
    };
    let mut found: Vec<BracketMatch> = Vec::new();
    let mut open: Vec<(usize, usize, usize)> = Vec::new();
    let mut state = LexicalState::Code;
    let mut offset: usize = 0;
    proof {
        assert(open_view(open@) =~= start.open);
        assert(match_views(found@) =~= start.found);
    }
    while offset < t.len()
        invariant
            t@ == encode_utf8(text@),
            brackets_wf(config@),
            dv == encoded(delimiters@),
            tokens == lexical_tokens(config@),
            dv == tokens.delimiters,
            offset <= t@.len(),
            text::is_boundary(t@, offset as int),
            state_wf(state, dv),
            scan_rest(t@, start, config@) == scan_rest(
                t@,
                (Scan {
                    offset: offset as int,
                    state: state_view(state, dv),
                    open: open_view(open@),
                    found: match_views(found@),
                }),
                config@,
            ),
        decreases t.len() - offset,
    {
        let ghost here = Scan {
            offset: offset as int,
            state: state_view(state, dv),
            open: open_view(open@),
            found: match_views(found@),
        };
        proof {
            encode_utf8_valid_utf8(text@);
            text::lemma_ceil_boundary(t@, offset + 1);
        }
        let in_code = match state {
            LexicalState::Code => true,
            _ => false,
        };
        if !in_code {
            let (next, after) = skip_one(t, offset, state, config, &delimiters, Ghost(text@));
            offset = next;
            state = after;
        } else if let Some((next, after)) = find_code_token(
            t,
            offset,
            config,
            &delimiters,
            Ghost(text@),
        ) {
            offset = next;
            state = after;
        } else if let Some((index, closes, len)) = find_bracket_token(t, offset, &config.brackets) {
            proof {
                assert(config@.brackets[index as int] == config.brackets@[index as int]);
                lemma_token_boundary(
                    t@,
                    offset as int,
                    if closes {
                        config.brackets@[index as int].close@
                    } else {
                        config.brackets@[index as int].open@
                    },
                );
                assert(t.len() == t@.len());
            }
            let end: usize = offset + len;
            let ghost opened = open@;
            let ghost so_far = found@;
            if !closes {
                open.push((index, offset, end));
                assert(open_view(open@) =~= open_view(opened).push(
                    (index as int, offset as int, end as int),
                ));
            } else if open.len() > 0 && open[open.len() - 1].0 == index {
                let last = open[open.len() - 1];
                let _ = open.pop();
                let matched = BracketMatch { open: last.1..last.2, close: offset..end };
                found.push(matched);
                proof {
                    assert(open_view(opened).last() == (
                        last.0 as int,
                        last.1 as int,
                        last.2 as int,
                    ));
                    assert(open_view(open@) =~= open_view(opened).drop_last());
                    assert(match_views(found@) =~= match_views(so_far).push(match_view(matched)));
                }
            } else {
                proof {
                    if opened.len() > 0 {
                        assert(open_view(opened).last().0 == opened[opened.len() - 1].0);
                    }
                }
            }
            offset = end;
        } else {
            offset = chars::next_boundary(t, offset);
        }
        proof {
            let there = Scan {
                offset: offset as int,
                state: state_view(state, dv),
                open: open_view(open@),
                found: match_views(found@),
            };
            assert(there == scan_step(t@, here, config@));
        }
    }
    found
}

/// The pairs of brackets in code, by where they open.
fn scan_bracket_pairs(text: &str, config: &EditorLanguageConfiguration) -> (pairs: Vec<BracketMatch>)
    requires
        brackets_wf(config@),
    ensures
        match_views(pairs@) == bracket_pairs(encode_utf8(text@), config@),
{
    let found = scan_text(text, config);
    let ghost fv = match_views(found@);
    let mut keys: Vec<(usize, usize)> = Vec::new();
    let mut i: usize = 0;
    while i < found.len()
        invariant
            i <= found@.len(),
            keys@.len() == i,
            forall|k: int| 0 <= k < i ==> #[trigger] keys@[k] == (found@[k].open.start, 0usize),
        decreases found.len() - i,
    {
        keys.push((found[i].open.start, 0));
        i = i + 1;
    }
    let ghost kv = Seq::new(fv.len(), |i: int| (fv[i].0.0, 0int));
    assert(order::keys_view(keys@) =~= kv);
    let order = order::stable_order(&keys);
    let mut pairs: Vec<BracketMatch> = Vec::new();
    let mut j: usize = 0;
    while j < order.len()
        invariant
            j <= order@.len(),
            order@.len() == found@.len(),
            fv == match_views(found@),
            forall|i: int| 0 <= i < order@.len() ==> #[trigger] order@[i] < found@.len(),
            pairs@.len() == j,
            forall|k: int|
                0 <= k < j ==> match_view(#[trigger] pairs@[k]) == fv[order@[k] as int],
        decreases order.len() - j,
    {
        let pair = &found[order[j]];
        pairs.push(
            BracketMatch {
                open: pair.open.start..pair.open.end,
                close: pair.close.start..pair.close.end,
            },
        );
        j = j + 1;
    }
    proof {
        let ov = order::indices_view(order@);
        assert(match_views(pairs@) =~= bracket_pairs(encode_utf8(text@), config@)) by {
            assert forall|k: int| 0 <= k < pairs@.len() implies match_views(pairs@)[k] == fv[ov[k]] by {
                assert(match_view(pairs@[k]) == fv[order@[k] as int]);
            }
        }
    }
    pairs
}

/// Whether the range touches the caret.
pub open spec fn is_near(range: (int, int), cursor: int) -> bool {
    range.0 <= cursor <= range.1
}

/// The first pair at or after `i` with a bracket that touches the caret.
pub open spec fn pair_near(
    pairs: Seq<((int, int), (int, int))>,
    cursor: int,
    i: int,
) -> Option<int>
    decreases pairs.len() - i,
{
    if i < 0 || i >= pairs.len() {
        None
    } else if is_near(pairs[i].0, cursor) || is_near(pairs[i].1, cursor) {
        Some(i)
    } else {
        pair_near(pairs, cursor, i + 1)
    }
}

fn near(range: &Range<usize>, cursor: usize) -> (touches: bool)
    ensures
        touches == is_near((range.start as int, range.end as int), cursor as int),
{
    range.start <= cursor && cursor <= range.end
}

/// The first pair of brackets of which one touches the caret.
pub fn bracket_match_near(
    text: &str,
    cursor: usize,
    config: &EditorLanguageConfiguration,
) -> (matched: Option<BracketMatch>)
    requires
        brackets_wf(config@),
    ensures
        match matched {
            Some(pair) => pair_near(
                bracket_pairs(encode_utf8(text@), config@),
                cursor as int,
                0,
            ) matches Some(i) && 0 <= i < bracket_pairs(encode_utf8(text@), config@).len()
                && match_view(pair) == bracket_pairs(encode_utf8(text@), config@)[i],
            None => pair_near(
                bracket_pairs(encode_utf8(text@), config@),
                cursor as int,
                0,
            ) is None,
        },
{
    let pairs = scan_bracket_pairs(text, config);
    let ghost pv = match_views(pairs@);
    let mut i: usize = 0;
    while i < pairs.len()
        invariant
            pv == match_views(pairs@),
            pv == bracket_pairs(encode_utf8(text@), config@),
            i <= pairs@.len(),
            pair_near(pv, cursor as int, 0) == pair_near(pv, cursor as int, i as int),
        decreases pairs.len() - i,
    {
        let pair = &pairs[i];
        assert(pv[i as int] == match_view(pairs@[i as int]));
        if near(&pair.open, cursor) || near(&pair.close, cursor) {
            return Some(
                BracketMatch {
                    open: pair.open.start..pair.open.end,
                    close: pair.close.start..pair.close.end,
                },
            );
        }
        i = i + 1;
    }
    None
}

/// The first pair at or after `i` whose opening (or closing) bracket touches
/// the caret.
pub open spec fn half_near(
    pairs: Seq<((int, int), (int, int))>,
    cursor: int,
    closing: bool,
    i: int,
) -> Option<int>
    decreases pairs.len() - i,
{
    if i < 0 || i >= pairs.len() {
        None
    } else if is_near(
        if closing {
            pairs[i].1
        } else {
            pairs[i].0
        },
        cursor,
    ) {
        Some(i)
    } else {
        half_near(pairs, cursor, closing, i + 1)
    }
}

/// The last of the first `n` pairs around the caret that opens furthest on.
pub open spec fn innermost_around(
    pairs: Seq<((int, int), (int, int))>,
    cursor: int,
    n: int,
) -> Option<int>
    decreases n,
{
    if n <= 0 {
        None
    } else {
        let before = innermost_around(pairs, cursor, n - 1);
        let pair = pairs[n - 1];
        if pair.0.1 <= cursor <= pair.1.0 && (before is None || pairs[before->Some_0].0.0
            <= pair.0.0) {
            Some(n - 1)
        } else {
            before
        }
    }
}

pub open spec fn least_after(best: Option<int>, offset: int, cursor: int) -> Option<int> {
    if offset > cursor && (best is None || offset < best->Some_0) {
        Some(offset)
    } else {
        best
    }
}

/// The nearest bracket after the caret, from the first `n` pairs.
pub open spec fn next_bracket(
    pairs: Seq<((int, int), (int, int))>,
    cursor: int,
    n: int,
) -> Option<int>
    decreases n,
{
    if n <= 0 {
        None
    } else {
        least_after(
            least_after(next_bracket(pairs, cursor, n - 1), pairs[n - 1].0.0, cursor),
            pairs[n - 1].1.0,
            cursor,
        )
    }
}

/// Where Go to Bracket leads: to the other half of a bracket at the caret, to
/// the end of the innermost pair around it, or to the next bracket.
pub open spec fn navigation_target(pairs: Seq<((int, int), (int, int))>, cursor: int) -> Option<int> {
    let n = pairs.len() as int;
    if half_near(pairs, cursor, false, 0) is Some {
        Some(pairs[half_near(pairs, cursor, false, 0)->Some_0].1.0)
    } else if half_near(pairs, cursor, true, 0) is Some {
        Some(pairs[half_near(pairs, cursor, true, 0)->Some_0].0.0)
    } else if innermost_around(pairs, cursor, n) is Some {
        Some(pairs[innermost_around(pairs, cursor, n)->Some_0].1.0)
    } else {
        next_bracket(pairs, cursor, n)
    }
}

fn find_half_near(pairs: &Vec<BracketMatch>, cursor: usize, closing: bool) -> (found: Option<usize>)
    ensures
        match found {
            Some(i) => i < pairs@.len() && half_near(
                match_views(pairs@),
                cursor as int,
                closing,
                0,
            ) == Some(i as int),
            None => half_near(match_views(pairs@), cursor as int, closing, 0) is None,
        },
{
    let ghost pv = match_views(pairs@);
    let mut i: usize = 0;
    while i < pairs.len()
        invariant
            pv == match_views(pairs@),
            i <= pairs@.len(),
            half_near(pv, cursor as int, closing, 0) == half_near(
                pv,
                cursor as int,
                closing,
                i as int,
            ),
        decreases pairs.len() - i,
    {
        assert(pv[i as int] == match_view(pairs@[i as int]));
        let touches = if closing {
            near(&pairs[i].close, cursor)
        } else {
            near(&pairs[i].open, cursor)
        };
        if touches {
            return Some(i);
        }
        i = i + 1;
    }
    None
}

/// Where Go to Bracket leads.
pub fn bracket_navigation_target(
    text: &str,
    cursor: usize,
    config: &EditorLanguageConfiguration,
) -> (target: Option<usize>)
    requires
        brackets_wf(config@),
    ensures
        match target {
            Some(offset) => navigation_target(
                bracket_pairs(encode_utf8(text@), config@),
                cursor as int,
            ) == Some(offset as int),
            None => navigation_target(
                bracket_pairs(encode_utf8(text@), config@),
                cursor as int,
            ) is None,
        },
{
    let pairs = scan_bracket_pairs(text, config);
    let ghost pv = match_views(pairs@);
    if let Some(i) = find_half_near(&pairs, cursor, false) {
        assert(pv[i as int] == match_view(pairs@[i as int]));
        return Some(pairs[i].close.start);
    }
    if let Some(i) = find_half_near(&pairs, cursor, true) {
        assert(pv[i as int] == match_view(pairs@[i as int]));
        return Some(pairs[i].open.start);
    }
    let mut around: Option<usize> = None;
    let mut nearest: Option<usize> = None;
    let mut n: usize = 0;
    while n < pairs.len()
        invariant
            pv == match_views(pairs@),
            n <= pairs@.len(),
            match around {
                Some(i) => i < n && innermost_around(pv, cursor as int, n as int) == Some(i as int),
                None => innermost_around(pv, cursor as int, n as int) is None,
            },
            match nearest {
                Some(offset) => next_bracket(pv, cursor as int, n as int) == Some(offset as int),
                None => next_bracket(pv, cursor as int, n as int) is None,
            },
        decreases pairs.len() - n,
    {
        let pair = &pairs[n];
        assert(pv[n as int] == match_view(pairs@[n as int]));
        if pair.open.end <= cursor && cursor <= pair.close.start {
            let inner = match around {
                Some(i) => {
                    assert(pv[i as int] == match_view(pairs@[i as int]));
                    pairs[i].open.start <= pair.open.start
                },
                None => true,
            };
            if inner {
                around = Some(n);
            }
        }
        nearest = nearer(nearest, pair.open.start, cursor);
        nearest = nearer(nearest, pair.close.start, cursor);
        n = n + 1;
    }
    if let Some(i) = around {
        assert(pv[i as int] == match_view(pairs@[i as int]));
        return Some(pairs[i].close.start);
    }
    nearest
}

fn nearer(best: Option<usize>, offset: usize, cursor: usize) -> (nearest: Option<usize>)
    ensures
        ({
            let b = match best {
                Some(b) => Some(b as int),
                None => None::<int>,
            };
            match nearest {
                Some(n) => least_after(b, offset as int, cursor as int) == Some(n as int),
                None => least_after(b, offset as int, cursor as int) is None,
            }
        }),
{
    if offset > cursor {
        match best {
            Some(b) => if offset < b {
                Some(offset)
            } else {
                Some(b)
            },
            None => Some(offset),
        }
    } else {
        best
    }
}

/// A pair that closed by itself can be typed over and taken back: behind the
/// opening half the caret stands between the two, typing the closing half moves
/// over it, and removing both leaves the text as it was.
pub proof fn law_auto_closed_pair_can_be_taken_back(
    t: Seq<u8>,
    start: int,
    typed: Seq<char>,
    language: LanguageModel,
    plan: TypingModel,
)
    requires
        valid_utf8(t),
        typing_model(t, start, start, typed, language) == Some(plan),
    ensures
        plan.watched is Some,
        ({
            let after = edit::replaced(t, (start, start, plan.replacement));
            let pair = plan.watched->Some_0;
            &&& plan.start == plan.end
            &&& is_between(after, plan.start, pair)
            &&& overtypes(after, plan.start, pair.close_text, pair)
            &&& edit::replaced(after, (pair.open.0, pair.close.1, Seq::empty())) == t
        }),
{
    let key = encode_utf8(typed);
    let pairs = language.auto_closing_pairs;
    let i = completed_pair(t, start, key, pairs, pairs.len() as int)->Some_0;
    let close = encode_utf8(pairs[i].close@);
    let after = edit::replaced(t, (start, start, plan.replacement));
    let cursor = start + key.len();
    let end = cursor + close.len();
    encode_utf8_valid_utf8(typed);
    encode_utf8_valid_utf8(pairs[i].close@);
    assert(after.subrange(start, cursor) =~= key);
    assert(after.subrange(cursor, end) =~= close);
    if 0 < start {
        if key.len() > 0 {
            assert(valid_first_scalar(key));
            assert(after[start] == key[0]);
        }
    }
    if close.len() > 0 {
        assert(valid_first_scalar(close));
        assert(after[cursor] == close[0]);
    } else if cursor < after.len() {
        assert(after[cursor] == t[start]);
    }
    if end < after.len() {
        assert(after[end] == t[start]);
    }
    assert(text::is_boundary(t, start));
    if start == 0 && t.len() > 0 {
        assert(valid_first_scalar(t));
    }
    encode_utf8_first_scalar(typed);
    assert(edit::replaced(after, (start, end, Seq::empty())) =~= t);
}

/// Surrounding a selection keeps what it reads selected, between the tokens.
pub proof fn law_surrounded_text_stays_selected(
    t: Seq<u8>,
    start: int,
    end: int,
    typed: Seq<char>,
    language: LanguageModel,
    plan: TypingModel,
)
    requires
        start < end,
        typing_model(t, start, end, typed, language) == Some(plan),
    ensures
        edit::replaced(t, (start, end, plan.replacement)).subrange(plan.start, plan.end)
            == t.subrange(start, end),
        edit::replaced(t, (start, end, plan.replacement)).subrange(start, plan.start)
            == encode_utf8(typed),
        plan.watched is None,
{
    let key = encode_utf8(typed);
    lemma_surrounding_pair(key, language.surrounding_pairs, 0);
    let i = surrounding_pair(key, language.surrounding_pairs, 0)->Some_0;
    let after = edit::replaced(t, (start, end, plan.replacement));
    assert(after.subrange(plan.start, plan.end) =~= t.subrange(start, end));
    assert(after.subrange(start, plan.start) =~= key);
}

/// A watched pair whose halves are still read after an edit elsewhere: the
/// halves lie where the pair says.
pub proof fn law_watched_pair_moves_with_its_text(
    t: Seq<u8>,
    pair: TrackedModel,
    start: int,
    end: int,
    new: Seq<u8>,
)
    requires
        valid_utf8(t),
        valid_utf8(new),
        0 <= start <= end <= t.len(),
        text::is_boundary(t, start),
        text::is_boundary(t, end),
        t.len() + new.len() <= usize::MAX,
        pair.open.1 <= pair.close.0,
        reads(t, pair.open.0, pair.open.1, pair.open_text),
        reads(t, pair.close.0, pair.close.1, pair.close_text),
        adjusted_pair(pair, start, end, new.len() as int) is Some,
    ensures
        ({
            let after = edit::replaced(t, (start, end, new));
            let moved = adjusted_pair(pair, start, end, new.len() as int)->Some_0;
            &&& reads(after, moved.open.0, moved.open.1, pair.open_text)
            &&& reads(after, moved.close.0, moved.close.1, pair.close_text)
            &&& moved.open_text == pair.open_text
            &&& moved.close_text == pair.close_text
        }),
{
    let e = (start, end, new);
    edit::lemma_reading(t, e, pair.open.0, pair.open.1);
    edit::lemma_reading(t, e, pair.close.0, pair.close.1);
    edit::lemma_boundary_kept(t, e, pair.open.0);
    edit::lemma_boundary_kept(t, e, pair.open.1);
    edit::lemma_boundary_kept(t, e, pair.close.0);
    edit::lemma_boundary_kept(t, e, pair.close.1);
}

/// A pair opens before it closes, both in the text.
pub open spec fn is_pair(t: Seq<u8>, pair: ((int, int), (int, int))) -> bool {
    0 <= pair.0.0 <= pair.0.1 <= pair.1.0 <= pair.1.1 <= t.len()
}

/// One pair ends before the other starts, or lies between its brackets.
pub open spec fn are_nested(a: ((int, int), (int, int)), b: ((int, int), (int, int))) -> bool {
    ||| a.1.1 <= b.0.0
    ||| b.1.1 <= a.0.0
    ||| a.0.1 <= b.0.0 && b.1.1 <= a.1.0
    ||| b.0.1 <= a.0.0 && a.1.1 <= b.1.0
}

/// What a scan has found so far is nested, and fits the brackets still open.
spec fn is_nested_scan(t: Seq<u8>, scan: Scan) -> bool {
    &&& 0 <= scan.offset <= t.len()
    &&& forall|i: int|
        #![trigger scan.open[i]]
        0 <= i < scan.open.len() ==> 0 <= scan.open[i].1 <= scan.open[i].2 <= scan.offset
    &&& forall|i: int, j: int|
        #![trigger scan.open[i], scan.open[j]]
        0 <= i < j < scan.open.len() ==> scan.open[i].2 <= scan.open[j].1
    &&& forall|i: int|
        #![trigger scan.found[i]]
        0 <= i < scan.found.len() ==> is_pair(t, scan.found[i]) && scan.found[i].1.1 <= scan.offset
    &&& forall|i: int, j: int|
        #![trigger scan.found[i], scan.open[j]]
        0 <= i < scan.found.len() && 0 <= j < scan.open.len() ==> scan.open[j].2
            <= scan.found[i].0.0 || scan.found[i].1.1 <= scan.open[j].1
    &&& forall|i: int, j: int|
        #![trigger scan.found[i], scan.found[j]]
        0 <= i < j < scan.found.len() ==> are_nested(scan.found[i], scan.found[j])
}

proof fn lemma_bracket_token(t: Seq<u8>, o: int, brackets: Seq<EditorCharacterPair>, n: int)
    requires
        0 <= o <= t.len(),
    ensures
        bracket_token(t, o, brackets, n) matches Some((_, _, len)) ==> 0 <= len <= t.len() - o,
    decreases n,
{
    if n > 0 {
        lemma_bracket_token(t, o, brackets, n - 1);
    }
}

proof fn lemma_nested_step(t: Seq<u8>, scan: Scan, language: LanguageModel)
    requires
        is_nested_scan(t, scan),
        scan.offset < t.len(),
    ensures
        ({
            let next = scan_step(t, scan, language);
            &&& scan.offset <= next.offset <= t.len() ==> is_nested_scan(t, next)
            &&& forall|i: int|
                #![trigger next.found[i]]
                0 <= i < next.found.len() ==> is_pair(t, next.found[i])
            &&& forall|i: int, j: int|
                #![trigger next.found[i], next.found[j]]
                0 <= i < j < next.found.len() ==> are_nested(next.found[i], next.found[j])
        }),
{
    let o = scan.offset;
    let next = scan_step(t, scan, language);
    lemma_bracket_token(t, o, language.brackets, language.brackets.len() as int);
    if scan.state is Code && code_token(t, o, lexical_tokens(language)) is None {
        match bracket_token(t, o, language.brackets, language.brackets.len() as int) {
            Some((index, closes, len)) => if !closes {
                let n = scan.open.len() as int;
                assert(next.open[n] == (index, o, o + len));
                assert forall|i: int| 0 <= i < n implies #[trigger] next.open[i] == scan.open[i] by {}
            } else if scan.open.len() > 0 && scan.open.last().0 == index {
                let m = scan.found.len() as int;
                let last = scan.open.last();
                assert(last == scan.open[scan.open.len() - 1]);
                assert(next.found[m] == ((last.1, last.2), (o, o + len)));
                assert forall|i: int| 0 <= i < m implies #[trigger] next.found[i]
                    == scan.found[i] by {}
                assert forall|i: int| 0 <= i < next.open.len() implies #[trigger] next.open[i]
                    == scan.open[i] && next.open[i].2 <= last.1 by {}
                assert forall|i: int| 0 <= i < m implies are_nested(
                    #[trigger] next.found[i],
                    next.found[m],
                ) by {
                    assert(scan.open[scan.open.len() - 1].2 <= scan.found[i].0.0
                        || scan.found[i].1.1 <= scan.open[scan.open.len() - 1].1);
                }
            },
            None => {},
        }
    }
}

proof fn lemma_nested_rest(t: Seq<u8>, scan: Scan, language: LanguageModel)
    requires
        is_nested_scan(t, scan),
    ensures
        ({
            let found = scan_rest(t, scan, language);
            &&& forall|i: int| #![trigger found[i]] 0 <= i < found.len() ==> is_pair(t, found[i])
            &&& forall|i: int, j: int|
                #![trigger found[i], found[j]]
                0 <= i < j < found.len() ==> are_nested(found[i], found[j])
        }),
    decreases t.len() - scan.offset,
{
    if scan.offset < t.len() {
        lemma_nested_step(t, scan, language);
        let next = scan_step(t, scan, language);
        if scan.offset < next.offset <= t.len() {
            lemma_nested_rest(t, next, language);
            assert(scan_rest(t, scan, language) == scan_rest(t, next, language));
        } else {
            assert(scan_rest(t, scan, language) == next.found);
        }
    } else {
        assert(scan_rest(t, scan, language) == scan.found);
    }
}

/// Every pair of brackets opens before it closes, the pairs come in the order
/// in which they open, and no two of them cross.
pub proof fn law_bracket_pairs_are_nested(t: Seq<u8>, language: LanguageModel)
    ensures
        ({
            let pairs = bracket_pairs(t, language);
            &&& forall|i: int| #![trigger pairs[i]] 0 <= i < pairs.len() ==> is_pair(t, pairs[i])
            &&& forall|i: int, j: int|
                #![trigger pairs[i], pairs[j]]
                0 <= i < j < pairs.len() ==> pairs[i].0.0 <= pairs[j].0.0 && are_nested(
                    pairs[i],
                    pairs[j],
                )
        }),
{
    let first = Scan { offset: 0, state: Lexical::Code, open: Seq::empty(), found: Seq::empty() };
    lemma_nested_rest(t, first, language);
    let found = scan_rest(t, first, language);
    let keys = Seq::new(found.len(), |i: int| (found[i].0.0, 0int));
    order::lemma_sorted_order(keys, found.len() as int);
    let order = order::sorted_order(keys, found.len() as int);
    let pairs = bracket_pairs(t, language);
    assert forall|i: int| #![trigger pairs[i]] 0 <= i < pairs.len() implies is_pair(t, pairs[i]) by {
        assert(0 <= order[i] < found.len());
    }
    assert forall|i: int, j: int|
        #![trigger pairs[i], pairs[j]]
        0 <= i < j < pairs.len() implies pairs[i].0.0 <= pairs[j].0.0 && are_nested(
        pairs[i],
        pairs[j],
    ) by {
        assert(order[i] != order[j] && order::key_le(keys[order[i]], keys[order[j]]));
        if order[i] < order[j] {
            assert(are_nested(found[order[i]], found[order[j]]));
        } else {
            assert(are_nested(found[order[j]], found[order[i]]));
        }
    }
}

/// The range reads a bracket of the `k`-th pair of a language.
pub open spec fn reads_bracket(
    t: Seq<u8>,
    range: (int, int),
    brackets: Seq<EditorCharacterPair>,
    k: int,
    closes: bool,
) -> bool {
    let token = encode_utf8(
        if closes {
            brackets[k].close@
        } else {
            brackets[k].open@
        },
    );
    &&& 0 <= k < brackets.len()
    &&& bytes::matches_at(t, range.0, token)
    &&& range.1 == range.0 + token.len()
}

/// The pair reads both brackets of one pair of a language.
pub open spec fn reads_brackets(
    t: Seq<u8>,
    pair: ((int, int), (int, int)),
    brackets: Seq<EditorCharacterPair>,
) -> bool {
    exists|k: int|
        #[trigger] reads_bracket(t, pair.0, brackets, k, false) && reads_bracket(
            t,
            pair.1,
            brackets,
            k,
            true,
        )
}

/// What a scan has come to reads brackets.
spec fn is_reading_scan(t: Seq<u8>, scan: Scan, brackets: Seq<EditorCharacterPair>) -> bool {
    &&& forall|i: int|
        #![trigger scan.open[i]]
        0 <= i < scan.open.len() ==> reads_bracket(
            t,
            (scan.open[i].1, scan.open[i].2),
            brackets,
            scan.open[i].0,
            false,
        )
    &&& forall|i: int|
        #![trigger scan.found[i]]
        0 <= i < scan.found.len() ==> reads_brackets(t, scan.found[i], brackets)
}

proof fn lemma_token_reads(t: Seq<u8>, o: int, brackets: Seq<EditorCharacterPair>, n: int)
    requires
        0 <= n <= brackets.len(),
    ensures
        bracket_token(t, o, brackets, n) matches Some((index, closes, len)) ==> reads_bracket(
            t,
            (o, o + len),
            brackets,
            index,
            closes,
        ),
    decreases n,
{
    if n > 0 {
        lemma_token_reads(t, o, brackets, n - 1);
    }
}

proof fn lemma_reading_step(t: Seq<u8>, scan: Scan, language: LanguageModel)
    requires
        is_reading_scan(t, scan, language.brackets),
    ensures
        is_reading_scan(t, scan_step(t, scan, language), language.brackets),
{
    let o = scan.offset;
    let brackets = language.brackets;
    let next = scan_step(t, scan, language);
    lemma_token_reads(t, o, brackets, brackets.len() as int);
    if scan.state is Code && code_token(t, o, lexical_tokens(language)) is None {
        match bracket_token(t, o, brackets, brackets.len() as int) {
            Some((index, closes, len)) => if !closes {
                let n = scan.open.len() as int;
                assert(next.open[n] == (index, o, o + len));
                assert forall|i: int| 0 <= i < n implies #[trigger] next.open[i] == scan.open[i] by {}
            } else if scan.open.len() > 0 && scan.open.last().0 == index {
                let m = scan.found.len() as int;
                let last = scan.open[scan.open.len() - 1];
                let pair = ((last.1, last.2), (o, o + len));
                assert(reads_bracket(t, pair.0, brackets, index, false));
                assert(reads_brackets(t, pair, brackets));
                assert(next.found[m] == pair);
                assert forall|i: int| 0 <= i < m implies #[trigger] next.found[i]
                    == scan.found[i] by {}
                assert forall|i: int| 0 <= i < next.open.len() implies #[trigger] next.open[i]
                    == scan.open[i] by {}
            },
            None => {},
        }
    }
}

proof fn lemma_reading_rest(t: Seq<u8>, scan: Scan, language: LanguageModel)
    requires
        is_reading_scan(t, scan, language.brackets),
    ensures
        ({
            let found = scan_rest(t, scan, language);
            forall|i: int|
                #![trigger found[i]]
                0 <= i < found.len() ==> reads_brackets(t, found[i], language.brackets)
        }),
    decreases t.len() - scan.offset,
{
    if 0 <= scan.offset < t.len() {
        lemma_reading_step(t, scan, language);
        let next = scan_step(t, scan, language);
        if scan.offset < next.offset <= t.len() {
            lemma_reading_rest(t, next, language);
            assert(scan_rest(t, scan, language) == scan_rest(t, next, language));
        } else {
            assert(scan_rest(t, scan, language) == next.found);
        }
    } else {
        assert(scan_rest(t, scan, language) == scan.found);
    }
}

/// Every pair of brackets reads the opening and the closing bracket of one pair
/// of the language. Where no opening bracket is empty, each pair opens behind
/// the one before it.
pub proof fn law_bracket_pairs_read_their_brackets(t: Seq<u8>, language: LanguageModel)
    ensures
        ({
            let pairs = bracket_pairs(t, language);
            &&& forall|i: int|
                #![trigger pairs[i]]
                0 <= i < pairs.len() ==> reads_brackets(t, pairs[i], language.brackets)
            &&& (forall|k: int|
                #![trigger language.brackets[k]]
                0 <= k < language.brackets.len() ==> encode_utf8(
                    language.brackets[k].open@,
                ).len() > 0) ==> forall|i: int, j: int|
                #![trigger pairs[i], pairs[j]]
                0 <= i < j < pairs.len() ==> pairs[i].0.0 < pairs[j].0.0
        }),
{
    let first = Scan { offset: 0, state: Lexical::Code, open: Seq::empty(), found: Seq::empty() };
    lemma_reading_rest(t, first, language);
    let found = scan_rest(t, first, language);
    let keys = Seq::new(found.len(), |i: int| (found[i].0.0, 0int));
    order::lemma_sorted_order(keys, found.len() as int);
    let order = order::sorted_order(keys, found.len() as int);
    let pairs = bracket_pairs(t, language);
    assert forall|i: int| #![trigger pairs[i]] 0 <= i < pairs.len() implies reads_brackets(
        t,
        pairs[i],
        language.brackets,
    ) by {
        assert(0 <= order[i] < found.len());
    }
    law_bracket_pairs_are_nested(t, language);
    if forall|k: int|
        #![trigger language.brackets[k]]
        0 <= k < language.brackets.len() ==> encode_utf8(language.brackets[k].open@).len() > 0 {
        assert forall|i: int, j: int|
            #![trigger pairs[i], pairs[j]]
            0 <= i < j < pairs.len() implies pairs[i].0.0 < pairs[j].0.0 by {
            lemma_opens_somewhere(t, pairs[i], language);
            lemma_opens_somewhere(t, pairs[j], language);
            assert(are_nested(pairs[i], pairs[j]));
        }
    }
}

proof fn lemma_opens_somewhere(
    t: Seq<u8>,
    pair: ((int, int), (int, int)),
    language: LanguageModel,
)
    requires
        reads_brackets(t, pair, language.brackets),
        forall|k: int|
            #![trigger language.brackets[k]]
            0 <= k < language.brackets.len() ==> encode_utf8(language.brackets[k].open@).len() > 0,
    ensures
        pair.0.0 < pair.0.1,
{
    let k = choose|k: int|
        #[trigger] reads_bracket(t, pair.0, language.brackets, k, false) && reads_bracket(
            t,
            pair.1,
            language.brackets,
            k,
            true,
        );
    assert(encode_utf8(language.brackets[k].open@).len() > 0);
}

} // verus!

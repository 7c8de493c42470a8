//! Which completions fit what was typed, and in which order they are offered.

use crate::chars;
use crate::lsp::items;
use crate::order;
use crate::text;
use std::ops::Range;
use vstd::prelude::*;
use vstd::utf8::*;

verus! {

/// Index behind the last character that is not part of a word.
pub open spec fn fragment_start(query: Seq<char>, n: int) -> int
    decreases n,
{
    if n <= 0 || !chars::is_word_character(query[n - 1]) {
        n
    } else {
        fragment_start(query, n - 1)
    }
}

/// The word that the query ends with.
pub open spec fn query_fragment(query: Seq<char>) -> Seq<char> {
    query.skip(fragment_start(query, query.len() as int))
}

/// The word that the query ends with.
pub fn completion_query_fragment(query: &str) -> (fragment: String)
    ensures
        fragment@ == query_fragment(query@),
{
    let all = chars::chars_of(query);
    let mut n: usize = all.len();
    while n > 0 && chars::check_word_character(all[n - 1])
        invariant
            n <= all@.len(),
            fragment_start(all@, all@.len() as int) == fragment_start(all@, n as int),
        decreases n,
    {
        n = n - 1;
    }
    let mut fragment = String::new();
    let mut i: usize = n;
    assert(fragment@ =~= all@.subrange(n as int, n as int));
    while i < all.len()
        invariant
            n <= i <= all@.len(),
            fragment@ == all@.subrange(n as int, i as int),
        decreases all.len() - i,
    {
        chars::push_char(&mut fragment, all[i]);
        assert(fragment@ =~= all@.subrange(n as int, i + 1));
        i = i + 1;
    }
    assert(fragment@ =~= all@.skip(n as int));
    fragment
}

/// The characters are the same, or the same ASCII letter.
pub open spec fn characters_equal(a: char, b: char) -> bool {
    a == b || ((a as u32) < 128 && (b as u32) < 128 && chars::ascii_lower(a) == chars::ascii_lower(
        b,
    ))
}

fn completion_characters_equal(left: char, right: char) -> (equal: bool)
    ensures
        equal == characters_equal(left, right),
{
    left == right || ((left as u32) < 128 && (right as u32) < 128 && lower(left) == lower(right))
}

fn lower(c: char) -> (result: char)
    ensures
        result == chars::ascii_lower(c),
{
    if 'A' <= c && c <= 'Z' {
        (c as u8 + 32) as char
    } else {
        c
    }
}

/// The first character from `from` on that equals `c`.
pub open spec fn find_char(candidate: Seq<char>, c: char, from: int) -> Option<int>
    decreases candidate.len() - from,
{
    if from >= candidate.len() {
        None
    } else if characters_equal(c, candidate[from]) {
        Some(from)
    } else {
        find_char(candidate, c, from + 1)
    }
}

/// How far a query was found in a candidate.
pub struct MatchModel {
    pub score: int,
    pub ranges: Seq<(int, int)>,
    /// The character that was found last.
    pub previous: Option<int>,
}

/// What finding the character at `at` is worth: more where it is exact, starts
/// the candidate or a word in it, or follows the one before; less by what lies
/// between.
pub open spec fn character_score(
    candidate: Seq<char>,
    c: char,
    at: int,
    previous: Option<int>,
) -> int {
    100 + (if c == candidate[at] {
        5int
    } else {
        0int
    }) + (if at == 0 {
        60int
    } else if !chars::char_is_alphanumeric(candidate[at - 1]) || (chars::char_is_lowercase(
        candidate[at - 1],
    ) && chars::char_is_uppercase(candidate[at])) {
        35int
    } else {
        0int
    }) + match previous {
        Some(previous) => if previous == at - 1 || (at == 0 && previous == 0) {
            45int
        } else if at > previous + 1 {
            -(at - (previous + 1))
        } else {
            0int
        },
        None => -at,
    }
}

/// The ranges with that of one more character, joined to the last where it
/// follows it.
pub open spec fn with_range(ranges: Seq<(int, int)>, start: int, end: int) -> Seq<(int, int)> {
    if ranges.len() > 0 && ranges.last().1 == start {
        ranges.drop_last().push((ranges.last().0, end))
    } else {
        ranges.push((start, end))
    }
}

/// How the first `n` characters of the query are found in the candidate, each
/// behind the one before.
pub open spec fn found(query: Seq<char>, candidate: Seq<char>, n: int) -> Option<MatchModel>
    decreases n,
{
    if n <= 0 {
        Some(MatchModel { score: 0, ranges: Seq::empty(), previous: None })
    } else {
        match found(query, candidate, n - 1) {
            Some(m) => match find_char(
                candidate,
                query[n - 1],
                match m.previous {
                    Some(previous) => previous + 1,
                    None => 0,
                },
            ) {
                Some(at) => Some(
                    MatchModel {
                        score: m.score + character_score(
                            candidate,
                            query[n - 1],
                            at,
                            m.previous,
                        ),
                        ranges: with_range(
                            m.ranges,
                            chars::byte_len(candidate.take(at)),
                            chars::byte_len(candidate.take(at + 1)),
                        ),
                        previous: Some(at),
                    },
                ),
                None => None,
            },
            None => None,
        }
    }
}

/// The candidate is the query, the case of ASCII letters aside.
pub open spec fn is_exact_match(query: Seq<char>, candidate: Seq<char>) -> bool {
    chars::byte_len(query) == chars::byte_len(candidate) && forall|i: int|
        0 <= i < query.len() && i < candidate.len() ==> characters_equal(
            #[trigger] candidate[i],
            query[i],
        )
}

/// How well the query fits the candidate, and where its characters are found.
pub open spec fn query_match(query: Seq<char>, candidate: Seq<char>) -> Option<
    (int, Seq<(int, int)>),
> {
    if query.len() == 0 {
        Some((0, Seq::empty()))
    } else {
        match found(query, candidate, query.len() as int) {
            Some(m) => Some(
                (
                    m.score - (if candidate.len() > query.len() {
                        candidate.len() - query.len()
                    } else {
                        0
                    }) + (if is_exact_match(query, candidate) {
                        300int
                    } else {
                        0int
                    }),
                    m.ranges,
                ),
            ),
            None => None,
        }
    }
}

proof fn lemma_find_char(candidate: Seq<char>, c: char, from: int)
    requires
        0 <= from,
    ensures
        match find_char(candidate, c, from) {
            Some(at) => from <= at < candidate.len() && characters_equal(c, candidate[at]),
            None => true,
        },
    decreases candidate.len() - from,
{
    if from < candidate.len() {
        lemma_find_char(candidate, c, from + 1);
    }
}

proof fn lemma_not_found(query: Seq<char>, candidate: Seq<char>, m: int, n: int)
    requires
        0 <= m <= n,
        found(query, candidate, m) is None,
    ensures
        found(query, candidate, n) is None,
    decreases n - m,
{
    if m < n {
        lemma_not_found(query, candidate, m, n - 1);
    }
}

/// What is found lies in the candidate, and the score is bounded.
proof fn lemma_found(query: Seq<char>, candidate: Seq<char>, n: int)
    requires
        0 <= n <= query.len(),
    ensures
        match found(query, candidate, n) {
            Some(m) => {
                &&& m.score <= 245 * n
                &&& match m.previous {
                    Some(previous) => n > 0 && n - 1 <= previous < candidate.len() && m.score
                        >= -previous,
                    None => n == 0 && m.score == 0,
                }
            },
            None => true,
        },
    decreases n,
{
    if n > 0 {
        lemma_found(query, candidate, n - 1);
        if let Some(m) = found(query, candidate, n - 1) {
            let from = match m.previous {
                Some(previous) => previous + 1,
                None => 0,
            };
            lemma_find_char(candidate, query[n - 1], from);
        }
    }
}

/// How well the query fits the candidate, and where its characters are found.
pub fn completion_match(query: &str, candidate: &str) -> (result: Option<
    (i128, Vec<Range<usize>>),
>)
    ensures
        match query_match(query@, candidate@) {
            Some((score, ranges)) => result is Some && (result->Some_0).0 == score && text::ranges_view(
                (result->Some_0).1@,
            ) == ranges,
            None => result is None,
        },
{
    let q = chars::chars_of(query);
    let c = chars::chars_of(candidate);
    let mut ranges: Vec<Range<usize>> = Vec::new();
    assert(text::ranges_view(ranges@) =~= Seq::empty());
    if q.len() == 0 {
        return Some((0, ranges));
    }
    let total: usize = candidate.as_bytes().len();
    let mut score: i128 = 0;
    let mut previous: Option<usize> = None;
    let mut at: usize = 0;
    let mut byte: usize = 0;
    let mut i: usize = 0;
    proof {
        assert(c@.take(0) =~= Seq::empty());
        chars::lemma_byte_len_empty();
    }
    while i < q.len()
        invariant
            q@ == query@,
            c@ == candidate@,
            q@.len() > 0,
            total == encode_utf8(candidate@).len(),
            i <= q@.len(),
            at <= c@.len(),
            byte == chars::byte_len(c@.take(at as int)),
            at == match previous {
                Some(p) => p + 1,
                None => 0,
            },
            i == 0 ==> previous is None,
            i > 0 ==> previous is Some,
            found(q@, c@, i as int) == Some(
                MatchModel {
                    score: score as int,
                    ranges: text::ranges_view(ranges@),
                    previous: match previous {
                        Some(p) => Some(p as int),
                        None => None,
                    },
                },
            ),
        decreases q.len() - i,
    {
        let wanted = q[i];
        let ghost from = at as int;
        while at < c.len() && !completion_characters_equal(wanted, c[at])
            invariant
                c@ == candidate@,
                total == encode_utf8(candidate@).len(),
                from <= at <= c@.len(),
                byte == chars::byte_len(c@.take(at as int)),
                find_char(c@, wanted, from) == find_char(c@, wanted, at as int),
            decreases c.len() - at,
        {
            proof {
                lemma_next_byte(c@, at as int);
            }
            byte = byte + chars::utf8_len(c[at]);
            at = at + 1;
        }
        if at >= c.len() {
            proof {
                lemma_not_found(q@, c@, i + 1, q@.len() as int);
            }
            return None;
        }
        proof {
            lemma_next_byte(c@, at as int);
            lemma_found(q@, c@, i as int);
            lemma_found(q@, c@, i + 1);
        }
        let behind: usize = byte + chars::utf8_len(c[at]);
        score = score + score_character(&c, wanted, at, previous);
        let ghost before = ranges@;
        let joined = if ranges.len() > 0 {
            let last = &ranges[ranges.len() - 1];
            assert(text::ranges_view(before).last() == (last.start as int, last.end as int));
            last.end == byte
        } else {
            false
        };
        if joined {
            let last = ranges.pop().unwrap();
            ranges.push(Range { start: last.start, end: behind });
            assert(text::ranges_view(ranges@) =~= text::ranges_view(before).drop_last().push(
                (last.start as int, behind as int),
            ));
        } else {
            ranges.push(Range { start: byte, end: behind });
            assert(text::ranges_view(ranges@) =~= text::ranges_view(before).push(
                (byte as int, behind as int),
            ));
        }
        previous = Some(at);
        byte = behind;
        at = at + 1;
        i = i + 1;
    }
    proof {
        lemma_found(q@, c@, q@.len() as int);
    }
    if c.len() > q.len() {
        score = score - (c.len() - q.len()) as i128;
    }
    if total == query.as_bytes().len() && check_zipped(&q, &c) {
        score = score + 300;
    }
    Some((score, ranges))
}

proof fn lemma_next_byte(c: Seq<char>, at: int)
    requires
        0 <= at < c.len(),
    ensures
        chars::byte_len(c.take(at + 1)) == chars::byte_len(c.take(at)) + chars::char_len(c[at]),
        chars::byte_len(c.take(at + 1)) <= chars::byte_len(c),
{
    assert(c.take(at + 1) =~= c.take(at).push(c[at]));
    chars::lemma_byte_len_push(c.take(at), c[at]);
    chars::lemma_byte_len_split(c, at + 1);
}

fn score_character(c: &Vec<char>, wanted: char, at: usize, previous: Option<usize>) -> (score: i128)
    requires
        at < c@.len(),
        match previous {
            Some(p) => p < at,
            None => true,
        },
    ensures
        score == character_score(
            c@,
            wanted,
            at as int,
            match previous {
                Some(p) => Some(p as int),
                None => None,
            },
        ),
{
    let mut score: i128 = 100;
    if wanted == c[at] {
        score = score + 5;
    }
    if at == 0 {
        score = score + 60;
    } else {
        let before = c[at - 1];
        if !chars::check_alphanumeric(before) || (chars::check_lowercase(before)
            && chars::check_uppercase(c[at])) {
            score = score + 35;
        }
    }
    match previous {
        Some(p) => {
            if p + 1 == at {
                score = score + 45;
            } else {
                score = score - (at - (p + 1)) as i128;
            }
        },
        None => {
            score = score - at as i128;
        },
    }
    score
}

fn check_zipped(q: &Vec<char>, c: &Vec<char>) -> (equal: bool)
    ensures
        equal == forall|i: int|
            0 <= i < q@.len() && i < c@.len() ==> characters_equal(#[trigger] c@[i], q@[i]),
{
    let mut i: usize = 0;
    while i < q.len() && i < c.len()
        invariant
            i <= q@.len(),
            i <= c@.len(),
            forall|k: int| 0 <= k < i ==> characters_equal(#[trigger] c@[k], q@[k]),
        decreases q.len() - i,
    {
        if !completion_characters_equal(c[i], q[i]) {
            return false;
        }
        i = i + 1;
    }
    true
}

/// `a` comes before `b` in the order of the code points.
pub open spec fn text_less(a: Seq<char>, b: Seq<char>) -> bool
    decreases a.len(),
{
    if b.len() == 0 {
        false
    } else if a.len() == 0 {
        true
    } else if a[0] != b[0] {
        (a[0] as int) < (b[0] as int)
    } else {
        text_less(a.skip(1), b.skip(1))
    }
}

/// By what completions are ordered.
pub struct RankModel {
    pub score: int,
    pub sort_key: Seq<char>,
    pub label_key: Seq<char>,
}

/// `a` is not offered behind `b`: it fits better, or as well and its keys do not
/// come behind.
pub open spec fn rank_le(a: RankModel, b: RankModel) -> bool {
    if a.score != b.score {
        a.score > b.score
    } else if a.sort_key != b.sort_key {
        text_less(a.sort_key, b.sort_key)
    } else {
        !text_less(b.label_key, a.label_key)
    }
}

/// By what a completion is ordered.
pub struct RankKey {
    pub score: i128,
    pub sort_key: String,
    pub label_key: String,
}

impl View for RankKey {
    type V = RankModel;

    open spec fn view(&self) -> RankModel {
        RankModel {
            score: self.score as int,
            sort_key: self.sort_key@,
            label_key: self.label_key@,
        }
    }
}

/// Where item `k` goes among the first `m` of the order: behind every item that
/// is not offered behind it.
pub open spec fn rank_position(keys: Seq<RankModel>, order: Seq<int>, k: int, m: int) -> int
    decreases m,
{
    if m <= 0 {
        0
    } else if rank_le(keys[order[m - 1]], keys[k]) {
        m
    } else {
        rank_position(keys, order, k, m - 1)
    }
}

/// The first `n` items in the order in which they are offered, those of one rank
/// in the order in which they came.
pub open spec fn rank_order(keys: Seq<RankModel>, n: int) -> Seq<int>
    decreases n,
{
    if n <= 0 {
        Seq::empty()
    } else {
        let before = rank_order(keys, n - 1);
        before.insert(rank_position(keys, before, n - 1, before.len() as int), n - 1)
    }
}

pub open spec fn ranks_view(keys: Seq<RankKey>) -> Seq<RankModel> {
    Seq::new(keys.len(), |i: int| keys[i]@)
}

fn check_text_less(a: &str, b: &str) -> (less: bool)
    ensures
        less == text_less(a@, b@),
{
    let x = chars::chars_of(a);
    let y = chars::chars_of(b);
    let mut i: usize = 0;
    assert(x@.skip(0) =~= x@);
    assert(y@.skip(0) =~= y@);
    while i < x.len() && i < y.len() && x[i] == y[i]
        invariant
            i <= x@.len(),
            i <= y@.len(),
            text_less(x@, y@) == text_less(x@.skip(i as int), y@.skip(i as int)),
        decreases x.len() - i,
    {
        assert(x@.skip(i as int).skip(1) =~= x@.skip(i + 1));
        assert(y@.skip(i as int).skip(1) =~= y@.skip(i + 1));
        i = i + 1;
    }
    if i >= y.len() {
        false
    } else if i >= x.len() {
        true
    } else {
        x[i] < y[i]
    }
}

fn check_rank_le(a: &RankKey, b: &RankKey) -> (le: bool)
    ensures
        le == rank_le(a@, b@),
{
    if a.score != b.score {
        a.score > b.score
    } else if !chars::same_text(a.sort_key.as_str(), b.sort_key.as_str()) {
        check_text_less(a.sort_key.as_str(), b.sort_key.as_str())
    } else {
        !check_text_less(b.label_key.as_str(), a.label_key.as_str())
    }
}

/// The order in which completions with these keys are offered.
pub fn order_by_rank(keys: &Vec<RankKey>) -> (order: Vec<usize>)
    ensures
        order::indices_view(order@) == rank_order(ranks_view(keys@), keys@.len() as int),
        forall|i: int| 0 <= i < order@.len() ==> #[trigger] order@[i] < keys@.len(),
        order@.len() == keys@.len(),
{
    let ghost view = ranks_view(keys@);
    let mut order: Vec<usize> = Vec::new();
    let mut n: usize = 0;
    assert(order::indices_view(order@) =~= rank_order(view, 0));
    while n < keys.len()
        invariant
            n <= keys@.len(),
            view == ranks_view(keys@),
            order@.len() == n,
            order::indices_view(order@) == rank_order(view, n as int),
            forall|i: int| 0 <= i < order@.len() ==> #[trigger] order@[i] < n,
        decreases keys.len() - n,
    {
        let ghost before = order::indices_view(order@);
        let mut m: usize = order.len();
        while m > 0 && !check_rank_le(&keys[order[m - 1]], &keys[n])
            invariant
                n < keys@.len(),
                m <= order@.len(),
                view == ranks_view(keys@),
                before == order::indices_view(order@),
                forall|i: int| 0 <= i < order@.len() ==> #[trigger] order@[i] < n,
                rank_position(view, before, n as int, before.len() as int) == rank_position(
                    view,
                    before,
                    n as int,
                    m as int,
                ),
            decreases m,
        {
            assert(before[m - 1] == order@[m - 1]);
            m = m - 1;
        }
        if m > 0 {
            assert(before[m - 1] == order@[m - 1]);
        }
        order.insert(m, n);
        assert(order::indices_view(order@) =~= before.insert(m as int, n as int));
        n = n + 1;
    }
    order
}

proof fn lemma_text_total(a: Seq<char>, b: Seq<char>)
    ensures
        text_less(a, b) || text_less(b, a) || a == b,
        !(text_less(a, b) && text_less(b, a)),
        a == b ==> !text_less(a, b),
    decreases a.len(),
{
    if a.len() == 0 || b.len() == 0 {
        if a.len() == 0 && b.len() == 0 {
            assert(a =~= b);
        }
    } else if a[0] == b[0] {
        lemma_text_total(a.skip(1), b.skip(1));
        if a.skip(1) == b.skip(1) {
            assert(a =~= seq![a[0]] + a.skip(1));
            assert(b =~= seq![b[0]] + b.skip(1));
        }
    }
}

proof fn lemma_text_transitive(a: Seq<char>, b: Seq<char>, c: Seq<char>)
    requires
        text_less(a, b),
        text_less(b, c),
    ensures
        text_less(a, c),
    decreases a.len(),
{
    if a.len() > 0 && a[0] == b[0] && b[0] == c[0] {
        lemma_text_transitive(a.skip(1), b.skip(1), c.skip(1));
    }
}

proof fn lemma_rank_total(a: RankModel, b: RankModel)
    ensures
        rank_le(a, b) || rank_le(b, a),
{
    lemma_text_total(a.sort_key, b.sort_key);
    lemma_text_total(a.label_key, b.label_key);
}

proof fn lemma_rank_transitive(a: RankModel, b: RankModel, c: RankModel)
    requires
        rank_le(a, b),
        rank_le(b, c),
    ensures
        rank_le(a, c),
{
    if a.score == b.score && b.score == c.score {
        if a.sort_key != b.sort_key && b.sort_key != c.sort_key {
            lemma_text_transitive(a.sort_key, b.sort_key, c.sort_key);
            lemma_text_total(a.sort_key, c.sort_key);
        } else if a.sort_key == b.sort_key && b.sort_key == c.sort_key {
            if text_less(c.label_key, a.label_key) {
                lemma_text_total(a.label_key, b.label_key);
                lemma_text_total(b.label_key, c.label_key);
                lemma_text_total(c.label_key, a.label_key);
                if a.label_key != b.label_key && b.label_key != c.label_key {
                    lemma_text_transitive(a.label_key, b.label_key, c.label_key);
                }
            }
        }
    }
}

/// The order lists each item once, and no item is offered before one that it
/// ranks behind.
pub proof fn law_rank_order(keys: Seq<RankModel>, n: int)
    requires
        0 <= n <= keys.len(),
    ensures
        rank_order(keys, n).len() == n,
        items::are_distinct(rank_order(keys, n), n),
        forall|i: int, j: int|
            #![trigger rank_order(keys, n)[i], rank_order(keys, n)[j]]
            0 <= i < j < n ==> rank_le(
                keys[rank_order(keys, n)[i]],
                keys[rank_order(keys, n)[j]],
            ),
    decreases n,
{
    if n > 0 {
        law_rank_order(keys, n - 1);
        let before = rank_order(keys, n - 1);
        let p = rank_position(keys, before, n - 1, before.len() as int);
        lemma_rank_position(keys, before, n - 1, before.len() as int);
        let after = rank_order(keys, n);
        assert forall|i: int| #![trigger after[i]] 0 <= i < after.len() implies 0 <= after[i] < n by {
            if i < p {
                assert(after[i] == before[i]);
            } else if i > p {
                assert(after[i] == before[i - 1]);
            }
        }
        assert forall|i: int, j: int|
            #![trigger after[i], after[j]]
            0 <= i < j < after.len() implies after[i] != after[j] && rank_le(
            keys[after[i]],
            keys[after[j]],
        ) by {
            if i < p {
                assert(after[i] == before[i]);
            } else if i > p {
                assert(after[i] == before[i - 1]);
            }
            if j < p {
                assert(after[j] == before[j]);
            } else if j > p {
                assert(after[j] == before[j - 1]);
            }
        }
    }
}

proof fn lemma_rank_position(keys: Seq<RankModel>, order: Seq<int>, k: int, m: int)
    requires
        0 <= m <= order.len(),
        forall|i: int, j: int|
            #![trigger order[i], order[j]]
            0 <= i < j < order.len() ==> rank_le(keys[order[i]], keys[order[j]]),
    ensures
        0 <= rank_position(keys, order, k, m) <= m,
        forall|i: int|
            #![trigger order[i]]
            0 <= i < rank_position(keys, order, k, m) ==> rank_le(keys[order[i]], keys[k]),
        forall|i: int|
            #![trigger order[i]]
            rank_position(keys, order, k, m) <= i < m ==> rank_le(keys[k], keys[order[i]]),
    decreases m,
{
    if m > 0 {
        if rank_le(keys[order[m - 1]], keys[k]) {
            assert forall|i: int| #![trigger order[i]] 0 <= i < m implies rank_le(
                keys[order[i]],
                keys[k],
            ) by {
                if i < m - 1 {
                    assert(rank_le(keys[order[i]], keys[order[m - 1]]));
                    lemma_rank_transitive(keys[order[i]], keys[order[m - 1]], keys[k]);
                }
            }
        } else {
            lemma_rank_total(keys[order[m - 1]], keys[k]);
            lemma_rank_position(keys, order, k, m - 1);
        }
    }
}

} // verus!

//! What filtering and ranking completions comes to.

use crate::chars;
use crate::lsp::completions;
use crate::lsp::completions::CompletionItem;
use crate::lsp::items;
use crate::lsp::ranking;
use vstd::prelude::*;
use vstd::utf8::*;

verus! {

/// An ASCII capital made small, and any other character as it is.
pub open spec fn small(c: char) -> char {
    if 65 <= c as u32 <= 90 {
        ((c as u32) + 32) as char
    } else {
        c
    }
}

/// The characters of the query stand at the places in the candidate, one behind the
/// other, the case of ASCII letters aside.
pub open spec fn stands_at(query: Seq<char>, candidate: Seq<char>, places: Seq<int>) -> bool {
    &&& places.len() == query.len()
    &&& forall|i: int| 0 <= i < places.len() ==> 0 <= #[trigger] places[i] < candidate.len()
    &&& forall|i: int, j: int| 0 <= i < j < places.len() ==> #[trigger] places[i] < #[trigger] places[j]
    &&& forall|i: int|
        #![trigger places[i]]
        0 <= i < places.len() ==> small(candidate[places[i]]) == small(query[i])
}

proof fn lemma_equal(a: char, b: char)
    ensures
        ranking::characters_equal(a, b) <==> small(a) == small(b),
{
}

proof fn lemma_finds(candidate: Seq<char>, c: char, from: int, at: int)
    requires
        0 <= from <= at < candidate.len(),
        small(candidate[at]) == small(c),
    ensures
        ranking::find_char(candidate, c, from) is Some,
        from <= ranking::find_char(candidate, c, from)->Some_0 <= at,
    decreases at - from,
{
    lemma_equal(c, candidate[from]);
    if from < at && !ranking::characters_equal(c, candidate[from]) {
        lemma_finds(candidate, c, from + 1, at);
    }
}

proof fn lemma_found_at(candidate: Seq<char>, c: char, from: int)
    requires
        0 <= from,
    ensures
        match ranking::find_char(candidate, c, from) {
            Some(at) => from <= at < candidate.len() && small(candidate[at]) == small(c) && forall|
                k: int,
            |
                from <= k < at ==> small(#[trigger] candidate[k]) != small(c),
            None => forall|k: int| from <= k < candidate.len() ==> small(#[trigger] candidate[k])
                != small(c),
        },
    decreases candidate.len() - from,
{
    if from < candidate.len() {
        lemma_equal(c, candidate[from]);
        lemma_found_at(candidate, c, from + 1);
    }
}

/// Where the last of the first `n` characters was found.
spec fn last_place(query: Seq<char>, candidate: Seq<char>, n: int) -> int {
    match ranking::found(query, candidate, n) {
        Some(m) => match m.previous {
            Some(p) => p,
            None => -1,
        },
        None => -1,
    }
}

proof fn lemma_found_before(query: Seq<char>, candidate: Seq<char>, places: Seq<int>, n: int)
    requires
        stands_at(query, candidate, places),
        0 <= n <= query.len(),
    ensures
        ranking::found(query, candidate, n) is Some,
        n == 0 ==> (ranking::found(query, candidate, n)->Some_0).previous is None,
        n > 0 ==> (ranking::found(query, candidate, n)->Some_0).previous is Some
            && 0 <= last_place(query, candidate, n) <= places[n - 1],
    decreases n,
{
    if n > 0 {
        lemma_found_before(query, candidate, places, n - 1);
        let m = ranking::found(query, candidate, n - 1)->Some_0;
        let from = match m.previous {
            Some(previous) => previous + 1,
            None => 0,
        };
        if n > 1 {
            assert(places[n - 2] < places[n - 1]);
        }
        assert(small(candidate[places[n - 1]]) == small(query[n - 1]));
        lemma_finds(candidate, query[n - 1], from, places[n - 1]);
    }
}

#[verifier::rlimit(30)]
proof fn lemma_places(query: Seq<char>, candidate: Seq<char>, n: int) -> (places: Seq<int>)
    requires
        0 <= n <= query.len(),
        ranking::found(query, candidate, n) is Some,
    ensures
        stands_at(query.take(n), candidate, places),
        n == 0 ==> (ranking::found(query, candidate, n)->Some_0).previous is None,
        n > 0 ==> (ranking::found(query, candidate, n)->Some_0).previous == Some(places[n - 1]),
        forall|i: int|
            0 <= i < n ==> #[trigger] places[i] == last_place(query, candidate, i + 1),
    decreases n,
{
    if n == 0 {
        Seq::empty()
    } else {
        let before = lemma_places(query, candidate, n - 1);
        let m = ranking::found(query, candidate, n - 1)->Some_0;
        let from = match m.previous {
            Some(previous) => previous + 1,
            None => 0,
        };
        lemma_found_at(candidate, query[n - 1], from);
        let at = ranking::find_char(candidate, query[n - 1], from)->Some_0;
        let places = before.push(at);
        assert forall|i: int, j: int| 0 <= i < j < places.len() implies #[trigger] places[i]
            < #[trigger] places[j] by {
            if j == n - 1 {
                assert(before[n - 2] == m.previous->Some_0);
                if i < n - 2 {
                    assert(before[i] < before[n - 2]);
                }
            } else {
                assert(before[i] < before[j]);
            }
        }
        assert forall|i: int| #![trigger places[i]] 0 <= i < places.len() implies small(
            candidate[places[i]],
        ) == small(query.take(n)[i]) by {
            if i < n - 1 {
                assert(places[i] == before[i]);
                assert(query.take(n - 1)[i] == query.take(n)[i]);
            }
        }
        assert forall|i: int| 0 <= i < places.len() implies 0 <= #[trigger] places[i]
            < candidate.len() by {
            if i < n - 1 {
                assert(places[i] == before[i]);
            }
        }
        places
    }
}

/// A query fits a candidate where its characters stand there one behind the other,
/// the case of ASCII letters aside.
pub proof fn law_subsequence_fits(query: Seq<char>, candidate: Seq<char>, places: Seq<int>)
    requires
        stands_at(query, candidate, places),
    ensures
        ranking::query_match(query, candidate) is Some,
{
    lemma_found_before(query, candidate, places, query.len() as int);
}

/// A query fits a candidate only there.
pub proof fn law_only_a_subsequence_fits(query: Seq<char>, candidate: Seq<char>)
    requires
        ranking::query_match(query, candidate) is Some,
    ensures
        exists|places: Seq<int>| stands_at(query, candidate, places),
{
    assert(query.take(query.len() as int) =~= query);
    if query.len() == 0 {
        assert(stands_at(query, candidate, Seq::empty()));
    } else {
        let places = lemma_places(query, candidate, query.len() as int);
        assert(stands_at(query, candidate, places));
    }
}

/// The case of ASCII letters in the query does not matter to whether it fits, nor to
/// what is highlighted.
pub proof fn law_case_of_query(query: Seq<char>, other: Seq<char>, candidate: Seq<char>)
    requires
        query.len() == other.len(),
        forall|i: int| 0 <= i < query.len() ==> small(#[trigger] query[i]) == small(other[i]),
    ensures
        ranking::query_match(query, candidate) is Some <==> ranking::query_match(
            other,
            candidate,
        ) is Some,
        ranking::query_match(query, candidate) is Some ==> (ranking::query_match(
            query,
            candidate,
        )->Some_0).1 == (ranking::query_match(other, candidate)->Some_0).1,
{
    lemma_case(query, other, candidate, query.len() as int);
}

proof fn lemma_case(query: Seq<char>, other: Seq<char>, candidate: Seq<char>, n: int)
    requires
        query.len() == other.len(),
        0 <= n <= query.len(),
        forall|i: int| 0 <= i < query.len() ==> small(#[trigger] query[i]) == small(other[i]),
    ensures
        match (ranking::found(query, candidate, n), ranking::found(other, candidate, n)) {
            (Some(a), Some(b)) => a.ranges == b.ranges && a.previous == b.previous,
            (None, None) => true,
            _ => false,
        },
    decreases n,
{
    if n > 0 {
        lemma_case(query, other, candidate, n - 1);
        if let Some(m) = ranking::found(query, candidate, n - 1) {
            let from = match m.previous {
                Some(previous) => previous + 1,
                None => 0,
            };
            assert(small(query[n - 1]) == small(other[n - 1]));
            lemma_same_find(candidate, query[n - 1], other[n - 1], from);
        }
    }
}

proof fn lemma_same_find(candidate: Seq<char>, c: char, d: char, from: int)
    requires
        small(c) == small(d),
    ensures
        ranking::find_char(candidate, c, from) == ranking::find_char(candidate, d, from),
    decreases candidate.len() - from,
{
    if from < candidate.len() {
        lemma_equal(c, candidate[from]);
        lemma_equal(d, candidate[from]);
        lemma_same_find(candidate, c, d, from + 1);
    }
}

/// The offset is highlighted.
pub open spec fn is_in_ranges(ranges: Seq<(int, int)>, o: int) -> bool {
    exists|r: int| 0 <= r < ranges.len() && (#[trigger] ranges[r]).0 <= o < ranges[r].1
}

/// The offset lies in the character at one of the places.
pub open spec fn is_at_places(candidate: Seq<char>, places: Seq<int>, o: int) -> bool {
    exists|i: int|
        0 <= i < places.len() && encode_utf8(candidate.take(#[trigger] places[i])).len() <= o
            < encode_utf8(candidate.take(places[i] + 1)).len()
}

/// What is highlighted is the characters where the query stands, each as early as it
/// can be; the ranges lie one behind the other with something between them.
#[verifier::rlimit(30)]
pub proof fn law_highlights(query: Seq<char>, candidate: Seq<char>)
    requires
        query.len() > 0,
        ranking::query_match(query, candidate) is Some,
    ensures
        exists|places: Seq<int>|
            {
                &&& #[trigger] stands_at(query, candidate, places)
                &&& forall|o: int|
                    is_in_ranges((ranking::query_match(query, candidate)->Some_0).1, o)
                        <==> #[trigger] is_at_places(candidate, places, o)
                &&& forall|i: int, k: int|
                    #![trigger places[i], candidate[k]]
                    0 <= i < places.len() && (if i == 0 { 0 } else { places[i - 1] + 1 }) <= k
                        < places[i] ==> small(candidate[k]) != small(query[i])
            },
        forall|r: int, s: int|
            #![trigger (ranking::query_match(query, candidate)->Some_0).1[r], (ranking::query_match(query, candidate)->Some_0).1[s]]
            0 <= r < s < (ranking::query_match(query, candidate)->Some_0).1.len() ==> (
            ranking::query_match(query, candidate)->Some_0).1[r].1 < (ranking::query_match(
                query,
                candidate,
            )->Some_0).1[s].0,
{
    let n = query.len() as int;
    assert(query.take(n) =~= query);
    let places = lemma_places(query, candidate, n);
    lemma_highlighted(query, candidate, places, n);
    assert(places.take(n) =~= places);
    assert forall|i: int, k: int|
        #![trigger places[i], candidate[k]]
        0 <= i < places.len() && (if i == 0 { 0 } else { places[i - 1] + 1 }) <= k
            < places[i] implies small(candidate[k]) != small(query[i]) by {
        lemma_found_prefix(query, candidate, i + 1, n);
        lemma_found_prefix(query, candidate, i, n);
        let m = ranking::found(query, candidate, i)->Some_0;
        let from = match m.previous {
            Some(previous) => previous + 1,
            None => 0,
        };
        lemma_found_at(candidate, query[i], from);
        lemma_previous(query, candidate, i);
        if i > 0 {
            assert(places[i - 1] == last_place(query, candidate, i));
        }
        assert(places[i] == last_place(query, candidate, i + 1));
    }
    assert(stands_at(query, candidate, places));
}

proof fn lemma_previous(query: Seq<char>, candidate: Seq<char>, n: int)
    requires
        0 <= n <= query.len(),
        ranking::found(query, candidate, n) is Some,
    ensures
        n == 0 ==> (ranking::found(query, candidate, n)->Some_0).previous is None,
        n > 0 ==> (ranking::found(query, candidate, n)->Some_0).previous is Some,
{
    let places = lemma_places(query, candidate, n);
}

proof fn lemma_found_prefix(query: Seq<char>, candidate: Seq<char>, m: int, n: int)
    requires
        0 <= m <= n,
        ranking::found(query, candidate, n) is Some,
    ensures
        ranking::found(query, candidate, m) is Some,
    decreases n - m,
{
    if m < n {
        lemma_found_prefix(query, candidate, m, n - 1);
    }
}

proof fn lemma_place_order(candidate: Seq<char>, a: int, b: int)
    requires
        0 <= a <= b <= candidate.len(),
    ensures
        encode_utf8(candidate.take(a)).len() <= encode_utf8(candidate.take(b)).len(),
        a < b ==> encode_utf8(candidate.take(a)).len() < encode_utf8(candidate.take(b)).len(),
    decreases b - a,
{
    if a < b {
        lemma_place_order(candidate, a, b - 1);
        assert(candidate.take(b) =~= candidate.take(b - 1).push(candidate[b - 1]));
        chars::lemma_byte_len_push(candidate.take(b - 1), candidate[b - 1]);
    }
}

#[verifier::rlimit(30)]
proof fn lemma_highlighted(query: Seq<char>, candidate: Seq<char>, places: Seq<int>, n: int)
    requires
        stands_at(query, candidate, places),
        0 <= n <= query.len(),
        ranking::found(query, candidate, n) is Some,
        forall|i: int|
            0 <= i < query.len() ==> #[trigger] places[i] == last_place(query, candidate, i + 1),
    ensures
        ({
            let ranges = (ranking::found(query, candidate, n)->Some_0).ranges;
            &&& forall|o: int|
                is_in_ranges(ranges, o) <==> #[trigger] is_at_places(candidate, places.take(n), o)
            &&& n > 0 ==> ranges.len() > 0 && ranges.last().1 == encode_utf8(
                candidate.take(places[n - 1] + 1),
            ).len()
            &&& n == 0 ==> ranges.len() == 0
            &&& forall|r: int|
                #![trigger ranges[r]]
                0 <= r < ranges.len() ==> 0 <= ranges[r].0 < ranges[r].1 <= ranges.last().1
            &&& forall|r: int, s: int|
                #![trigger ranges[r], ranges[s]]
                0 <= r < s < ranges.len() ==> ranges[r].1 < ranges[s].0
        }),
    decreases n,
{
    if n == 0 {
        assert forall|o: int| is_in_ranges(
            (ranking::found(query, candidate, n)->Some_0).ranges,
            o,
        ) <==> #[trigger] is_at_places(candidate, places.take(n), o) by {}
    } else {
        lemma_found_prefix(query, candidate, n - 1, n);
        lemma_highlighted(query, candidate, places, n - 1);
        lemma_previous(query, candidate, n);
        let before = (ranking::found(query, candidate, n - 1)->Some_0).ranges;
        let ranges = (ranking::found(query, candidate, n)->Some_0).ranges;
        let at = places[n - 1];
        assert(at == last_place(query, candidate, n));
        let start = encode_utf8(candidate.take(at)).len() as int;
        let end = encode_utf8(candidate.take(at + 1)).len() as int;
        lemma_place_order(candidate, at, at + 1);
        assert(ranges == ranking::with_range(before, start, end));
        if n > 1 {
            assert(places[n - 2] < places[n - 1]);
            lemma_place_order(candidate, places[n - 2] + 1, at);
        }
        let m = before.len() as int;
        let joined = m > 0 && before.last().1 == start;
        assert forall|o: int| is_in_ranges(ranges, o) <==> #[trigger] is_at_places(
            candidate,
            places.take(n),
            o,
        ) by {
            let fewer = places.take(n - 1);
            let all = places.take(n);
            if is_in_ranges(ranges, o) {
                let r = choose|r: int| 0 <= r < ranges.len() && (#[trigger] ranges[r]).0 <= o
                    < ranges[r].1;
                if start <= o < end {
                    assert(all[n - 1] == at);
                    assert(is_at_places(candidate, all, o));
                } else {
                    if joined && r == m - 1 {
                        assert(before[r].0 <= o < before[r].1);
                    } else {
                        assert(ranges[r] == before[r]);
                        assert(before[r].0 <= o < before[r].1);
                    }
                    assert(is_in_ranges(before, o));
                    assert(is_at_places(candidate, fewer, o));
                    let i = choose|i: int|
                        0 <= i < fewer.len() && encode_utf8(
                            candidate.take(#[trigger] fewer[i]),
                        ).len() <= o < encode_utf8(candidate.take(fewer[i] + 1)).len();
                    assert(all[i] == fewer[i]);
                }
            }
            if is_at_places(candidate, all, o) {
                let i = choose|i: int|
                    0 <= i < all.len() && encode_utf8(candidate.take(#[trigger] all[i])).len() <= o
                        < encode_utf8(candidate.take(all[i] + 1)).len();
                if i == n - 1 {
                    assert(ranges.last().0 <= o < ranges.last().1);
                    assert(ranges[ranges.len() - 1].0 <= o < ranges[ranges.len() - 1].1);
                } else {
                    assert(fewer[i] == all[i]);
                    assert(is_at_places(candidate, fewer, o));
                    assert(is_in_ranges(before, o));
                    let r = choose|r: int| 0 <= r < before.len() && (#[trigger] before[r]).0 <= o
                        < before[r].1;
                    if joined && r == m - 1 {
                        assert(ranges[r].0 <= o < ranges[r].1);
                    } else {
                        assert(ranges[r] == before[r]);
                    }
                }
            }
        }
        assert forall|r: int| #![trigger ranges[r]] 0 <= r < ranges.len() implies 0 <= ranges[r].0
            < ranges[r].1 <= ranges.last().1 by {
            if joined {
                if r < m - 1 {
                    assert(ranges[r] == before[r]);
                } else {
                    assert(before[m - 1].0 < before[m - 1].1);
                }
            } else if r < m {
                assert(ranges[r] == before[r]);
            }
        }
        assert forall|r: int, s: int|
            #![trigger ranges[r], ranges[s]]
            0 <= r < s < ranges.len() implies ranges[r].1 < ranges[s].0 by {
            if joined {
                assert(ranges[r] == before[r]);
                assert(before[r].1 < before[s].0);
            } else {
                assert(ranges[r] == before[r]);
                if s < m {
                    assert(ranges[s] == before[s]);
                } else {
                    assert(before[r].1 <= before.last().1);
                }
            }
        }
    }
}

/// How many of the first `n` characters agree to the case.
pub open spec fn exact_count(query: Seq<char>, part: Seq<char>, n: int) -> int
    decreases n,
{
    if n <= 0 {
        0
    } else {
        exact_count(query, part, n - 1) + if query[n - 1] == part[n - 1] {
            1int
        } else {
            0int
        }
    }
}

/// Letters and digits with no step from a small letter to a capital.
pub open spec fn is_one_word(s: Seq<char>) -> bool {
    forall|i: int|
        0 <= i < s.len() ==> chars::char_is_alphanumeric(#[trigger] s[i])
            && !chars::char_is_uppercase(s[i])
}

/// What a query is worth that stands in one piece in a candidate: a hundred for each
/// character, forty-five for each that follows the one before, five for each that
/// agrees to the case; sixty at the start of the candidate, less by one for each
/// character before it; less by one for each character too many; and three hundred
/// more where it is all of the candidate.
#[verifier::rlimit(30)]
pub proof fn law_score_of_one_piece(
    query: Seq<char>,
    x: Seq<char>,
    part: Seq<char>,
    y: Seq<char>,
)
    requires
        query.len() > 0,
        part.len() == query.len(),
        forall|i: int| 0 <= i < query.len() ==> small(#[trigger] part[i]) == small(query[i]),
        forall|i: int| 0 <= i < x.len() ==> small(#[trigger] x[i]) != small(query[0]),
        is_one_word(x + part + y),
    ensures
        ranking::query_match(query, x + part + y) is Some,
        (ranking::query_match(query, x + part + y)->Some_0).0 == 100 * query.len() + 45 * (
        query.len() - 1) + 5 * exact_count(query, part, query.len() as int) + (if x.len() == 0 {
            60int
        } else {
            0int
        }) - x.len() - (x.len() + y.len()) + (if x.len() == 0 && y.len() == 0 {
            300int
        } else {
            0int
        }),
{
    let candidate = x + part + y;
    let n = query.len() as int;
    lemma_piece(query, x, part, y, n);
    assert(candidate.len() - query.len() == x.len() + y.len());
    if x.len() == 0 && y.len() == 0 {
        assert(candidate =~= part);
        assert forall|i: int| 0 <= i < query.len()
            && i < candidate.len() implies ranking::characters_equal(
            #[trigger] candidate[i],
            query[i],
        ) by {
            assert(candidate[i] == part[i]);
            lemma_equal(candidate[i], query[i]);
        }
        lemma_same_size(query, part, n);
        assert(query.take(n) =~= query);
        assert(part.take(n) =~= part);
    } else {
        lemma_same_size(query, part, n);
        assert(query.take(n) =~= query);
        assert(part.take(n) =~= part);
        chars::lemma_byte_len_concat(x + part, y);
        chars::lemma_byte_len_concat(x, part);
        if x.len() > 0 {
            lemma_place_order(x, 0, x.len() as int);
            assert(x.take(x.len() as int) =~= x);
        }
        if y.len() > 0 {
            lemma_place_order(y, 0, y.len() as int);
            assert(y.take(y.len() as int) =~= y);
        }
        assert(!ranking::is_exact_match(query, candidate));
    }
}

proof fn lemma_same_size(a: Seq<char>, b: Seq<char>, n: int)
    requires
        a.len() == b.len(),
        0 <= n <= a.len(),
        forall|i: int| 0 <= i < a.len() ==> small(#[trigger] b[i]) == small(a[i]),
    ensures
        chars::byte_len(a.take(n)) == chars::byte_len(b.take(n)),
    decreases n,
{
    if n > 0 {
        lemma_same_size(a, b, n - 1);
        assert(a.take(n) =~= a.take(n - 1).push(a[n - 1]));
        assert(b.take(n) =~= b.take(n - 1).push(b[n - 1]));
        chars::lemma_byte_len_push(a.take(n - 1), a[n - 1]);
        chars::lemma_byte_len_push(b.take(n - 1), b[n - 1]);
        assert(small(b[n - 1]) == small(a[n - 1]));
    } else {
        assert(a.take(0) =~= b.take(0));
    }
}

#[verifier::rlimit(30)]
proof fn lemma_piece(query: Seq<char>, x: Seq<char>, part: Seq<char>, y: Seq<char>, n: int)
    requires
        part.len() == query.len(),
        0 < n <= query.len(),
        forall|i: int| 0 <= i < query.len() ==> small(#[trigger] part[i]) == small(query[i]),
        forall|i: int| 0 <= i < x.len() ==> small(#[trigger] x[i]) != small(query[0]),
        is_one_word(x + part + y),
    ensures
        match ranking::found(query, x + part + y, n) {
            Some(m) => {
                &&& m.previous == Some(x.len() + n - 1)
                &&& m.score == 100 * n + 45 * (n - 1) + 5 * exact_count(query, part, n) + (if x.len()
                    == 0 {
                    60int
                } else {
                    0int
                }) - x.len()
            },
            None => false,
        },
    decreases n,
{
    let candidate = x + part + y;
    let at = x.len() + n - 1;
    assert(candidate[at] == part[n - 1]);
    assert(small(part[n - 1]) == small(query[n - 1]));
    if n > 1 {
        lemma_piece(query, x, part, y, n - 1);
        lemma_finds(candidate, query[n - 1], at, at);
        assert(chars::char_is_alphanumeric(candidate[at - 1]));
        assert(!chars::char_is_uppercase(candidate[at]));
    } else {
        lemma_finds(candidate, query[0], 0, at);
        lemma_found_at(candidate, query[0], 0);
        let found = ranking::find_char(candidate, query[0], 0)->Some_0;
        if found < x.len() {
            assert(candidate[found] == x[found]);
        }
        if at > 0 {
            assert(chars::char_is_alphanumeric(candidate[at - 1]));
            assert(!chars::char_is_uppercase(candidate[at]));
        }
        reveal_with_fuel(ranking::found, 2);
        reveal_with_fuel(exact_count, 2);
    }
}

/// What a gap costs: one for each character in it, and what following would have been
/// worth; a character that starts a word behind the gap is worth thirty-five more.
#[verifier::rlimit(30)]
pub proof fn law_score_of_a_gap(c: char, gap: Seq<char>, d: char)
    requires
        gap.len() > 0,
        forall|i: int| 0 <= i < gap.len() ==> small(#[trigger] gap[i]) != small(d),
    ensures
        ranking::query_match(seq![c, d], seq![c] + gap + seq![d]) is Some,
        (ranking::query_match(seq![c, d], seq![c] + gap + seq![d])->Some_0).0 == 270 - 2 * gap.len()
            + (if !chars::char_is_alphanumeric(gap.last()) || (chars::char_is_lowercase(gap.last())
            && chars::char_is_uppercase(d)) {
            35int
        } else {
            0int
        }),
{
    let query = seq![c, d];
    let candidate = seq![c] + gap + seq![d];
    let at = gap.len() + 1;
    assert(candidate[0] == c);
    assert(candidate[at as int] == d);
    assert(candidate[at - 1] == gap.last());
    lemma_finds(candidate, c, 0, 0);
    lemma_finds(candidate, d, 1, at as int);
    lemma_found_at(candidate, d, 1);
    let found = ranking::find_char(candidate, d, 1)->Some_0;
    if found < at {
        assert(candidate[found] == gap[found - 1]);
    }
    reveal_with_fuel(ranking::found, 3);
    chars::lemma_byte_len_concat(seq![c] + gap, seq![d]);
    chars::lemma_byte_len_concat(seq![c], gap);
    assert(seq![c, d] =~= seq![c] + seq![d]);
    chars::lemma_byte_len_concat(seq![c], seq![d]);
    lemma_place_order(gap, 0, gap.len() as int);
    assert(gap.take(gap.len() as int) =~= gap);
    assert(!ranking::is_exact_match(query, candidate));
}

/// Nothing typed fits everything, and is worth nothing.
pub proof fn law_empty_query(candidate: Seq<char>)
    ensures
        ranking::query_match(Seq::empty(), candidate) == Some((0int, Seq::<(int, int)>::empty())),
{
}

/// What is held against the items is the word at the end of what was typed.
pub proof fn law_query_fragment(x: Seq<char>, separator: char, w: Seq<char>)
    requires
        forall|i: int|
            0 <= i < w.len() ==> #[trigger] w[i] == '_' || chars::char_is_alphanumeric(w[i]),
        separator != '_',
        !chars::char_is_alphanumeric(separator),
    ensures
        ranking::query_fragment(x + seq![separator] + w) == w,
        ranking::query_fragment(w) == w,
{
    let s = x + seq![separator] + w;
    assert forall|i: int| x.len() + 1 <= i < s.len() implies #[trigger] s[i] == '_'
        || chars::char_is_alphanumeric(s[i]) by {
        assert(s[i] == w[i - x.len() - 1]);
    }
    lemma_fragment(s, x.len() as int + 1, s.len() as int);
    assert(s[x.len() as int] == separator);
    assert(s.skip(x.len() as int + 1) =~= w);
    lemma_fragment(w, 0, w.len() as int);
    assert(w.skip(0) =~= w);
}

proof fn lemma_fragment(s: Seq<char>, from: int, n: int)
    requires
        0 <= from <= n <= s.len(),
        forall|i: int|
            from <= i < s.len() ==> #[trigger] s[i] == '_' || chars::char_is_alphanumeric(s[i]),
        from == 0 || !(s[from - 1] == '_' || chars::char_is_alphanumeric(s[from - 1])),
    ensures
        ranking::fragment_start(s, n) == from,
    decreases n,
{
    if n > from {
        assert(s[n - 1] == '_' || chars::char_is_alphanumeric(s[n - 1]));
        lemma_fragment(s, from, n - 1);
    }
}

/// Texts are ordered by the first code point in which they differ, and one that the
/// other goes on from comes first.
pub proof fn law_text_order(x: Seq<char>, c: char, y: Seq<char>, d: char, z: Seq<char>)
    requires
        (c as u32) < (d as u32),
    ensures
        ranking::text_less(x + seq![c] + y, x + seq![d] + z),
        !ranking::text_less(x + seq![d] + z, x + seq![c] + y),
        ranking::text_less(x, x + seq![c] + y),
        !ranking::text_less(x + seq![c] + y, x),
        !ranking::text_less(x, x),
    decreases x.len(),
{
    let a = x + seq![c] + y;
    let b = x + seq![d] + z;
    if x.len() == 0 {
        assert(a[0] == c && b[0] == d);
    } else {
        law_text_order(x.skip(1), c, y, d, z);
        assert(a.skip(1) =~= x.skip(1) + seq![c] + y);
        assert(b.skip(1) =~= x.skip(1) + seq![d] + z);
        assert(a[0] == x[0] && b[0] == x[0]);
    }
}

/// What the item is filtered by.
pub open spec fn filter_text(item: CompletionItem) -> Seq<char> {
    if item.filter_text is Some {
        (item.filter_text->Some_0)@
    } else {
        item.label@
    }
}

/// By what items that fit alike are ordered.
pub open spec fn sort_text(item: CompletionItem) -> Seq<char> {
    chars::lowercase(
        if item.sort_text is Some {
            (item.sort_text->Some_0)@
        } else {
            item.label@
        },
    )
}

#[verifier::rlimit(30)]
proof fn lemma_fitting(all: Seq<CompletionItem>, query: Seq<char>, n: int)
    requires
        0 <= n <= all.len(),
    ensures
        ({
            let (indices, ranks) = completions::fitting(all, query, n);
            &&& indices.len() == ranks.len()
            &&& forall|k: int|
                #![trigger indices[k]]
                0 <= k < indices.len() ==> {
                    &&& 0 <= indices[k] < n
                    &&& ranking::query_match(query, filter_text(all[indices[k]])) is Some
                    &&& ranks[k].score == (ranking::query_match(
                        query,
                        filter_text(all[indices[k]]),
                    )->Some_0).0
                    &&& ranks[k].sort_key == sort_text(all[indices[k]])
                    &&& ranks[k].label_key == chars::lowercase(all[indices[k]].label@)
                }
            &&& forall|i: int|
                #![trigger all[i]]
                0 <= i < n && ranking::query_match(query, filter_text(all[i])) is Some
                    ==> indices.contains(i)
        }),
    decreases n,
{
    if n > 0 {
        lemma_fitting(all, query, n - 1);
        let (before, _) = completions::fitting(all, query, n - 1);
        let (indices, ranks) = completions::fitting(all, query, n);
        assert forall|i: int|
            #![trigger all[i]]
            0 <= i < n && ranking::query_match(query, filter_text(all[i])) is Some implies indices.contains(
        i) by {
            if i < n - 1 {
                let k = choose|k: int| 0 <= k < before.len() && before[k] == i;
                assert(indices[k] == i);
            } else {
                assert(indices.last() == i);
            }
        }
    }
}

/// The items that are offered are the ones that the word fits, those that it fits
/// better first, and of those that it fits alike the ones that sort first.
#[verifier::rlimit(30)]
pub proof fn law_ranked_items(all: Seq<CompletionItem>, typed: Seq<char>, a: int, b: int, i: int)
    requires
        all.len() <= completions::MAX_COMPLETION_ITEMS,
        0 <= a < b < completions::ranked_items(all, typed).len(),
        0 <= i < all.len(),
    ensures
        ({
            let word = ranking::query_fragment(typed);
            let ranked = completions::ranked_items(all, typed);
            let first = ranking::query_match(word, filter_text(ranked[a]));
            let second = ranking::query_match(word, filter_text(ranked[b]));
            &&& ranked.len() <= all.len()
            &&& all.contains(ranked[a])
            &&& first is Some
            &&& second is Some
            &&& (first->Some_0).0 >= (second->Some_0).0
            &&& (first->Some_0).0 == (second->Some_0).0 ==> !ranking::text_less(
                sort_text(ranked[b]),
                sort_text(ranked[a]),
            )
            &&& (first->Some_0).0 == (second->Some_0).0 && sort_text(ranked[a]) == sort_text(
                ranked[b],
            ) ==> !ranking::text_less(
                chars::lowercase(ranked[b].label@),
                chars::lowercase(ranked[a].label@),
            )
            &&& ranking::query_match(word, filter_text(all[i])) is Some ==> ranked.contains(all[i])
        }),
{
    let word = ranking::query_fragment(typed);
    let n = all.len() as int;
    lemma_fitting(all, word, n);
    let (indices, ranks) = completions::fitting(all, word, n);
    let m = ranks.len() as int;
    ranking::law_rank_order(ranks, m);
    let order = ranking::rank_order(ranks, m);
    let ranked = completions::ranked_items(all, typed);
    lemma_order_full(ranks, m);
    lemma_indices_count(all, word, n);
    assert(ranked[a] == all[indices[order[a]]]);
    assert(ranked[b] == all[indices[order[b]]]);
    assert(0 <= order[a] < m && 0 <= order[b] < m);
    assert(0 <= indices[order[a]] < n);
    assert(0 <= indices[order[b]] < n);
    assert(ranking::rank_le(ranks[order[a]], ranks[order[b]]));
    if sort_text(ranked[a]) != sort_text(ranked[b]) {
        if ranking::text_less(sort_text(ranked[b]), sort_text(ranked[a])) {
            lemma_less_one_way(sort_text(ranked[a]), sort_text(ranked[b]));
        }
    } else {
        lemma_less_one_way(sort_text(ranked[a]), sort_text(ranked[a]));
    }
    if ranking::query_match(word, filter_text(all[i])) is Some {
        assert(indices.contains(i));
        let k = choose|k: int| 0 <= k < indices.len() && indices[k] == i;
        assert(order.contains(k));
        let p = choose|p: int| 0 <= p < order.len() && order[p] == k;
        assert(ranked[p] == all[i]);
    }
}

proof fn lemma_less_one_way(a: Seq<char>, b: Seq<char>)
    ensures
        !(ranking::text_less(a, b) && ranking::text_less(b, a)),
        a == b ==> !ranking::text_less(a, b),
    decreases a.len(),
{
    if a.len() > 0 && b.len() > 0 && a[0] == b[0] {
        lemma_less_one_way(a.skip(1), b.skip(1));
    }
}

proof fn lemma_indices_count(all: Seq<CompletionItem>, query: Seq<char>, n: int)
    requires
        0 <= n <= all.len(),
    ensures
        completions::fitting(all, query, n).0.len() <= n,
    decreases n,
{
    if n > 0 {
        lemma_indices_count(all, query, n - 1);
    }
}

proof fn lemma_order_full(ranks: Seq<ranking::RankModel>, n: int)
    requires
        0 <= n <= ranks.len(),
    ensures
        forall|k: int| 0 <= k < n ==> #[trigger] ranking::rank_order(ranks, n).contains(k),
    decreases n,
{
    if n > 0 {
        lemma_order_full(ranks, n - 1);
        ranking::law_rank_order(ranks, n - 1);
        ranking::law_rank_order(ranks, n);
        let before = ranking::rank_order(ranks, n - 1);
        let after = ranking::rank_order(ranks, n);
        let p = ranking::rank_position(ranks, before, n - 1, before.len() as int);
        lemma_rank_place(ranks, before, n - 1, before.len() as int);
        assert(after == before.insert(p, n - 1));
        assert forall|k: int| 0 <= k < n implies #[trigger] after.contains(k) by {
            if k == n - 1 {
                assert(after[p] == k);
            } else {
                assert(before.contains(k));
                let i = choose|i: int| 0 <= i < before.len() && before[i] == k;
                if i < p {
                    assert(after[i] == k);
                } else {
                    assert(after[i + 1] == k);
                }
            }
        }
    }
}

proof fn lemma_rank_place(ranks: Seq<ranking::RankModel>, order: Seq<int>, k: int, m: int)
    requires
        0 <= m,
    ensures
        0 <= ranking::rank_position(ranks, order, k, m) <= m,
    decreases m,
{
    if m > 0 {
        lemma_rank_place(ranks, order, k, m - 1);
    }
}

/// The first item that asks for it is selected, or else the first.
pub proof fn law_preselected(all: Seq<CompletionItem>, i: int)
    requires
        0 <= i < all.len(),
    ensures
        ({
            let p = completions::preselected(all, 0);
            &&& 0 <= p < all.len()
            &&& all[i].preselect ==> all[p].preselect && p <= i
            &&& !all[p].preselect ==> p == 0
        }),
{
    lemma_preselected(all, 0);
}

proof fn lemma_preselected(all: Seq<CompletionItem>, from: int)
    requires
        0 <= from <= all.len(),
        all.len() > 0,
    ensures
        ({
            let p = completions::preselected(all, from);
            &&& 0 <= p < all.len()
            &&& forall|i: int|
                from <= i < all.len() && (#[trigger] all[i]).preselect ==> all[p].preselect && from
                    <= p <= i
            &&& p == 0 || (all[p].preselect && p >= from)
        }),
    decreases all.len() - from,
{
    if from < all.len() {
        lemma_preselected(all, from + 1);
    }
}

} // verus!

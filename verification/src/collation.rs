//! Locale-aware ordering of lines.

use crate::order;
use icu_collator::{Collator, CollatorOptions};
use icu_locid::Locale;
use vstd::prelude::*;

verus! {

/// `icu_collator::Collator`, which orders strings by the rules of a locale.
#[verifier::external_type_specification]
#[verifier::external_body]
pub struct ExCollator(Collator);

/// `icu_locid::Locale`, a parsed locale tag.
#[verifier::external_type_specification]
#[verifier::external_body]
pub struct ExLocale(Locale);

/// How a collator orders two strings: negative, zero or positive as the first
/// comes before, with or after the second.
pub uninterp spec fn collation(collator: Collator, left: Seq<char>, right: Seq<char>) -> int;

/// The locale that a tag stands for, if it is well formed.
pub uninterp spec fn parsed_locale(tag: Seq<char>) -> Option<Locale>;

/// The collator for a locale, if there are rules for it.
pub uninterp spec fn locale_collator(locale: Locale) -> Option<Collator>;

/// Calls `icu_collator::Collator::compare`: the result is named by
/// `collation` and is one of -1, 0 and 1.
#[verifier::external_body]
pub(crate) fn compare_strings(collator: &Collator, left: &str, right: &str) -> (sign: i8)
    ensures
        sign == collation(*collator, left@, right@),
        -1 <= sign <= 1,
{
    match collator.compare(left, right) {
        std::cmp::Ordering::Less => -1,
        std::cmp::Ordering::Equal => 0,
        std::cmp::Ordering::Greater => 1,
    }
}

/// Calls `icu_locid::Locale`'s parser: the result is named by `parsed_locale`.
#[verifier::external_body]
fn parse_locale(tag: &str) -> (locale: Option<Locale>)
    ensures
        locale == parsed_locale(tag@),
{
    tag.parse::<Locale>().ok()
}

/// Calls `icu_collator::Collator::try_new` with default options: the result is
/// named by `locale_collator`.
#[verifier::external_body]
fn new_collator(locale: Locale) -> (collator: Option<Collator>)
    ensures
        collator == locale_collator(locale),
{
    Collator::try_new(&locale.into(), CollatorOptions::new()).ok()
}

/// The root locale, `icu_locid::Locale::UND`, written `und`.
fn root_collator() -> (collator: Option<Collator>)
    ensures
        collator == (match parsed_locale("und"@) {
            Some(locale) => locale_collator(locale),
            None => None,
        }),
{
    match parse_locale("und") {
        Some(locale) => new_collator(locale),
        None => None,
    }
}

/// The collator for the tag of the system's locale, or for the root locale
/// where there is no tag, it is not well formed or there are no rules for it.
pub open spec fn chosen_collator(tag: Option<Seq<char>>) -> Option<Collator> {
    let own = match tag {
        Some(tag) => match parsed_locale(tag) {
            Some(locale) => locale_collator(locale),
            None => None,
        },
        None => None,
    };
    if own is Some {
        own
    } else {
        match parsed_locale("und"@) {
            Some(locale) => locale_collator(locale),
            None => None,
        }
    }
}

/// The collator for a locale tag, or for the root locale.
pub fn line_collator(tag: Option<&str>) -> (collator: Option<Collator>)
    ensures
        collator == chosen_collator(
            match tag {
                Some(tag) => Some(tag@),
                None => None,
            },
        ),
{
    if let Some(tag) = tag {
        if let Some(locale) = parse_locale(tag) {
            if let Some(collator) = new_collator(locale) {
                return Some(collator);
            }
        }
    }
    root_collator()
}

/// Calls `sys_locale::get_locale`. The tag is that of the system on which the
/// program runs, so nothing is claimed of it.
#[verifier::external_body]
fn system_locale_tag() -> Option<String> {
    sys_locale::get_locale()
}

/// The collator for the system's locale: that which `line_collator` gives for
/// whatever tag the system reports.
pub fn system_line_collator() -> (collator: Option<Collator>)
    ensures
        exists|tag: Option<Seq<char>>| collator == #[trigger] chosen_collator(tag),
{
    match system_locale_tag() {
        Some(tag) => line_collator(Some(tag.as_str())),
        None => line_collator(None),
    }
}

/// Whether line `i` does not come after line `j`.
pub open spec fn not_after(collator: Collator, lines: Seq<Seq<char>>, i: int, j: int) -> bool {
    collation(collator, lines[i], lines[j]) <= 0
}

/// Two sorted lists of line numbers made one; of two lines that the collator
/// does not tell apart that of `a` comes first.
pub open spec fn merged(
    collator: Collator,
    lines: Seq<Seq<char>>,
    a: Seq<int>,
    b: Seq<int>,
) -> Seq<int>
    decreases a.len() + b.len(),
{
    if a.len() == 0 {
        b
    } else if b.len() == 0 {
        a
    } else if not_after(collator, lines, a[0], b[0]) {
        seq![a[0]] + merged(collator, lines, a.drop_first(), b)
    } else {
        seq![b[0]] + merged(collator, lines, a, b.drop_first())
    }
}

/// The numbers from `low` to `high` in the order of their lines.
pub open spec fn collated(collator: Collator, lines: Seq<Seq<char>>, low: int, high: int) -> Seq<
    int,
>
    decreases high - low,
{
    if high - low <= 0 {
        Seq::empty()
    } else if high - low == 1 {
        seq![low]
    } else {
        let middle = low + (high - low) / 2;
        merged(
            collator,
            lines,
            collated(collator, lines, low, middle),
            collated(collator, lines, middle, high),
        )
    }
}

pub open spec fn lines_view(lines: Seq<String>) -> Seq<Seq<char>> {
    Seq::new(lines.len(), |i: int| lines[i]@)
}

fn merge(collator: &Collator, lines: &Vec<String>, a: &Vec<usize>, b: &Vec<usize>) -> (all: Vec<
    usize,
>)
    requires
        forall|i: int| 0 <= i < a@.len() ==> #[trigger] a@[i] < lines@.len(),
        forall|i: int| 0 <= i < b@.len() ==> #[trigger] b@[i] < lines@.len(),
    ensures
        order::indices_view(all@) == merged(
            *collator,
            lines_view(lines@),
            order::indices_view(a@),
            order::indices_view(b@),
        ),
        forall|i: int| 0 <= i < all@.len() ==> #[trigger] all@[i] < lines@.len(),
{
    let ghost lv = lines_view(lines@);
    let ghost av = order::indices_view(a@);
    let ghost bv = order::indices_view(b@);
    let ghost whole = merged(*collator, lv, av, bv);
    let mut all: Vec<usize> = Vec::new();
    let mut i: usize = 0;
    let mut j: usize = 0;
    proof {
        assert(av.skip(0) =~= av);
        assert(bv.skip(0) =~= bv);
        assert(whole =~= order::indices_view(all@) + merged(*collator, lv, av.skip(0), bv.skip(0)));
    }
    while i < a.len() && j < b.len()
        invariant
            lv == lines_view(lines@),
            av == order::indices_view(a@),
            bv == order::indices_view(b@),
            i <= a@.len(),
            j <= b@.len(),
            forall|i: int| 0 <= i < a@.len() ==> #[trigger] a@[i] < lines@.len(),
            forall|i: int| 0 <= i < b@.len() ==> #[trigger] b@[i] < lines@.len(),
            forall|i: int| 0 <= i < all@.len() ==> #[trigger] all@[i] < lines@.len(),
            whole == order::indices_view(all@) + merged(
                *collator,
                lv,
                av.skip(i as int),
                bv.skip(j as int),
            ),
        decreases a.len() - i + (b.len() - j),
    {
        let ghost before = order::indices_view(all@);
        proof {
            assert(av.skip(i as int)[0] == a@[i as int]);
            assert(bv.skip(j as int)[0] == b@[j as int]);
            assert(av.skip(i as int).drop_first() =~= av.skip(i + 1));
            assert(bv.skip(j as int).drop_first() =~= bv.skip(j + 1));
        }
        let sign: i8 = compare_strings(collator, lines[a[i]].as_str(), lines[b[j]].as_str());
        if sign <= 0 {
            all.push(a[i]);
            assert(order::indices_view(all@) =~= before.push(a@[i as int] as int));
            i = i + 1;
        } else {
            all.push(b[j]);
            assert(order::indices_view(all@) =~= before.push(b@[j as int] as int));
            j = j + 1;
        }
        assert(whole =~= order::indices_view(all@) + merged(
            *collator,
            lv,
            av.skip(i as int),
            bv.skip(j as int),
        ));
    }
    while i < a.len()
        invariant
            av == order::indices_view(a@),
            i <= a@.len(),
            forall|i: int| 0 <= i < a@.len() ==> #[trigger] a@[i] < lines@.len(),
            forall|i: int| 0 <= i < all@.len() ==> #[trigger] all@[i] < lines@.len(),
            i < a@.len() ==> j == b@.len(),
            i < a@.len() ==> whole == order::indices_view(all@) + av.skip(i as int),
            i == a@.len() ==> whole == order::indices_view(all@) + bv.skip(j as int),
            j <= b@.len(),
            bv == order::indices_view(b@),
        decreases a.len() - i,
    {
        let ghost before = order::indices_view(all@);
        all.push(a[i]);
        proof {
            assert(order::indices_view(all@) =~= before.push(a@[i as int] as int));
            assert(av.skip(i as int) =~= seq![av[i as int]] + av.skip(i + 1));
            assert(before + av.skip(i as int) =~= order::indices_view(all@) + av.skip(i + 1));
            if i + 1 == a@.len() {
                assert(av.skip(i + 1) =~= bv.skip(j as int));
            }
        }
        i = i + 1;
    }
    while j < b.len()
        invariant
            bv == order::indices_view(b@),
            j <= b@.len(),
            forall|i: int| 0 <= i < b@.len() ==> #[trigger] b@[i] < lines@.len(),
            forall|i: int| 0 <= i < all@.len() ==> #[trigger] all@[i] < lines@.len(),
            whole == order::indices_view(all@) + bv.skip(j as int),
        decreases b.len() - j,
    {
        let ghost before = order::indices_view(all@);
        all.push(b[j]);
        proof {
            assert(order::indices_view(all@) =~= before.push(b@[j as int] as int));
            assert(bv.skip(j as int) =~= seq![bv[j as int]] + bv.skip(j + 1));
            assert(before + bv.skip(j as int) =~= order::indices_view(all@) + bv.skip(j + 1));
        }
        j = j + 1;
    }
    assert(whole =~= order::indices_view(all@));
    all
}

/// The numbers from `low` to `high` in the order of their lines.
pub(crate) fn sort_lines(collator: &Collator, lines: &Vec<String>, low: usize, high: usize) -> (
order: Vec<usize>)
    requires
        low <= high <= lines@.len(),
    ensures
        order::indices_view(order@) == collated(
            *collator,
            lines_view(lines@),
            low as int,
            high as int,
        ),
        forall|i: int| 0 <= i < order@.len() ==> #[trigger] order@[i] < lines@.len(),
    decreases high - low,
{
    let mut order: Vec<usize> = Vec::new();
    if high - low == 0 {
        assert(order::indices_view(order@) =~= Seq::empty());
        return order;
    }
    if high - low == 1 {
        order.push(low);
        assert(order::indices_view(order@) =~= seq![low as int]);
        return order;
    }
    let middle: usize = low + (high - low) / 2;
    let a = sort_lines(collator, lines, low, middle);
    let b = sort_lines(collator, lines, middle, high);
    merge(collator, lines, &a, &b)
}

/// The comparison of a collator is a total preorder.
pub open spec fn is_total_preorder(collator: Collator) -> bool {
    &&& forall|x: Seq<char>, y: Seq<char>|
        #[trigger] collation(collator, x, y) <= 0 || collation(collator, y, x) <= 0
    &&& forall|x: Seq<char>, y: Seq<char>, z: Seq<char>|
        #[trigger] collation(collator, x, y) <= 0 && #[trigger] collation(collator, y, z) <= 0
            ==> collation(collator, x, z) <= 0
}

/// Ascending by the collator, lines that it does not tell apart in their given order.
pub open spec fn is_collated(collator: Collator, lines: Seq<Seq<char>>, order: Seq<int>) -> bool {
    forall|i: int, j: int|
        #![trigger order[i], order[j]]
        0 <= i < j < order.len() ==> not_after(collator, lines, order[i], order[j]) && (not_after(
            collator,
            lines,
            order[j],
            order[i],
        ) ==> order[i] < order[j])
}

proof fn lemma_merged(collator: Collator, lines: Seq<Seq<char>>, a: Seq<int>, b: Seq<int>)
    ensures
        merged(collator, lines, a, b).to_multiset() == a.to_multiset().add(b.to_multiset()),
        merged(collator, lines, a, b).len() == a.len() + b.len(),
        forall|x: int|
            #[trigger] merged(collator, lines, a, b).contains(x) <==> (a.contains(x) || b.contains(
                x,
            )),
    decreases a.len() + b.len(),
{
    broadcast use vstd::seq_lib::group_to_multiset_ensures;

    let all = merged(collator, lines, a, b);
    if a.len() == 0 {
        assert(a =~= Seq::empty());
        assert(all.to_multiset() =~= a.to_multiset().add(b.to_multiset()));
        assert forall|x: int| #[trigger] all.contains(x) <==> (a.contains(x) || b.contains(x)) by {}
    } else if b.len() == 0 {
        assert(b =~= Seq::empty());
        assert(all.to_multiset() =~= a.to_multiset().add(b.to_multiset()));
        assert forall|x: int| #[trigger] all.contains(x) <==> (a.contains(x) || b.contains(x)) by {}
    } else {
        let (head, aa, bb) = if not_after(collator, lines, a[0], b[0]) {
            (a[0], a.drop_first(), b)
        } else {
            (b[0], a, b.drop_first())
        };
        lemma_merged(collator, lines, aa, bb);
        let rest = merged(collator, lines, aa, bb);
        assert(all =~= seq![head] + rest);
        vstd::seq_lib::lemma_multiset_commutative(seq![head], rest);
        if not_after(collator, lines, a[0], b[0]) {
            assert(a =~= seq![head] + aa);
            vstd::seq_lib::lemma_multiset_commutative(seq![head], aa);
        } else {
            assert(b =~= seq![head] + bb);
            vstd::seq_lib::lemma_multiset_commutative(seq![head], bb);
        }
        assert(all.to_multiset() =~= a.to_multiset().add(b.to_multiset()));
        assert forall|x: int| #[trigger] all.contains(x) <==> (a.contains(x) || b.contains(x)) by {
            assert(all.contains(x) <==> all.to_multiset().count(x) > 0);
            assert(a.contains(x) <==> a.to_multiset().count(x) > 0);
            assert(b.contains(x) <==> b.to_multiset().count(x) > 0);
        }
    }
}

proof fn lemma_merged_sorted(collator: Collator, lines: Seq<Seq<char>>, a: Seq<int>, b: Seq<int>)
    requires
        is_total_preorder(collator),
        is_collated(collator, lines, a),
        is_collated(collator, lines, b),
        forall|x: int, y: int| #[trigger] a.contains(x) && #[trigger] b.contains(y) ==> x < y,
    ensures
        is_collated(collator, lines, merged(collator, lines, a, b)),
    decreases a.len() + b.len(),
{
    if a.len() > 0 && b.len() > 0 {
        let all = merged(collator, lines, a, b);
        let takes_a = not_after(collator, lines, a[0], b[0]);
        let (head, aa, bb) = if takes_a {
            (a[0], a.drop_first(), b)
        } else {
            (b[0], a, b.drop_first())
        };
        assert forall|x: int, y: int| #[trigger] aa.contains(x) && #[trigger] bb.contains(y) implies x
            < y by {
            let i = choose|i: int| 0 <= i < aa.len() && aa[i] == x;
            let j = choose|j: int| 0 <= j < bb.len() && bb[j] == y;
            if takes_a {
                assert(a[i + 1] == x);
            } else {
                assert(b[j + 1] == y);
            }
            assert(a.contains(x) && b.contains(y));
        }
        lemma_merged_sorted(collator, lines, aa, bb);
        lemma_merged(collator, lines, aa, bb);
        let rest = merged(collator, lines, aa, bb);
        assert(a.contains(a[0]) && b.contains(b[0]));
        assert forall|i: int, j: int| #![trigger all[i], all[j]] 0 <= i < j < all.len() implies not_after(
            collator,
            lines,
            all[i],
            all[j],
        ) && (not_after(collator, lines, all[j], all[i]) ==> all[i] < all[j]) by {
            if i > 0 {
                assert(all[i] == rest[i - 1] && all[j] == rest[j - 1]);
            } else {
                let x = all[j];
                assert(all[j] == rest[j - 1]);
                assert(rest.contains(x));
                if takes_a {
                    if aa.contains(x) {
                        let k = choose|k: int| 0 <= k < aa.len() && aa[k] == x;
                        assert(a[k + 1] == x);
                    } else {
                        let k = choose|k: int| 0 <= k < b.len() && b[k] == x;
                        assert(b[k] == x);
                        assert(not_after(collator, lines, a[0], x)) by {
                            if k > 0 {
                                assert(not_after(collator, lines, b[0], b[k]));
                            }
                        }
                    }
                } else {
                    if bb.contains(x) {
                        let k = choose|k: int| 0 <= k < bb.len() && bb[k] == x;
                        assert(b[k + 1] == x);
                    } else {
                        let k = choose|k: int| 0 <= k < a.len() && a[k] == x;
                        assert(a[k] == x);
                        assert(not_after(collator, lines, b[0], a[0]));
                        if k > 0 {
                            assert(not_after(collator, lines, a[0], a[k]));
                        }
                        if not_after(collator, lines, x, b[0]) {
                            assert(not_after(collator, lines, a[0], b[0]));
                        }
                    }
                }
            }
        }
    }
}

/// Sorting lists each number once.
pub proof fn law_collated_is_permutation(
    collator: Collator,
    lines: Seq<Seq<char>>,
    low: int,
    high: int,
)
    requires
        low <= high,
    ensures
        collated(collator, lines, low, high).to_multiset() == Seq::new(
            (high - low) as nat,
            |i: int| low + i,
        ).to_multiset(),
        collated(collator, lines, low, high).len() == high - low,
        forall|x: int|
            #[trigger] collated(collator, lines, low, high).contains(x) <==> low <= x < high,
    decreases high - low,
{
    let all = collated(collator, lines, low, high);
    let range = Seq::new((high - low) as nat, |i: int| low + i);
    if high - low <= 1 {
        assert(all =~= range);
        assert forall|x: int| #[trigger] all.contains(x) <==> low <= x < high by {
            if low <= x < high {
                assert(all[0] == x);
            }
        }
    } else {
        let middle = low + (high - low) / 2;
        law_collated_is_permutation(collator, lines, low, middle);
        law_collated_is_permutation(collator, lines, middle, high);
        let a = collated(collator, lines, low, middle);
        let b = collated(collator, lines, middle, high);
        lemma_merged(collator, lines, a, b);
        let ra = Seq::new((middle - low) as nat, |i: int| low + i);
        let rb = Seq::new((high - middle) as nat, |i: int| middle + i);
        assert(range =~= ra + rb);
        vstd::seq_lib::lemma_multiset_commutative(ra, rb);
        assert forall|x: int| #[trigger] all.contains(x) <==> low <= x < high by {
            assert(a.contains(x) <==> low <= x < middle);
            assert(b.contains(x) <==> middle <= x < high);
        }
    }
}

/// Where the collator's comparison is a total preorder, sorting ascends by it
/// and keeps lines that it does not tell apart in their given order.
pub proof fn law_collated_is_stable_sort(
    collator: Collator,
    lines: Seq<Seq<char>>,
    low: int,
    high: int,
)
    requires
        low <= high,
        is_total_preorder(collator),
    ensures
        is_collated(collator, lines, collated(collator, lines, low, high)),
    decreases high - low,
{
    if high - low > 1 {
        let middle = low + (high - low) / 2;
        law_collated_is_stable_sort(collator, lines, low, middle);
        law_collated_is_stable_sort(collator, lines, middle, high);
        law_collated_is_permutation(collator, lines, low, middle);
        law_collated_is_permutation(collator, lines, middle, high);
        lemma_merged_sorted(
            collator,
            lines,
            collated(collator, lines, low, middle),
            collated(collator, lines, middle, high),
        );
    }
}

} // verus!

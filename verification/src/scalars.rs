//! Where the characters of a text lie among its bytes.

use crate::chars;
use crate::text;
use vstd::prelude::*;
use vstd::utf8::*;

verus! {

/// `p` is the least character boundary behind `o`.
pub open spec fn is_next_boundary(t: Seq<u8>, o: int, p: int) -> bool {
    &&& o < p <= t.len()
    &&& is_char_boundary(t, p)
    &&& forall|k: int| o < k < p ==> !#[trigger] is_char_boundary(t, k)
}

/// `p` is the greatest character boundary before `o`.
pub open spec fn is_previous_boundary(t: Seq<u8>, o: int, p: int) -> bool {
    &&& 0 <= p < o
    &&& is_char_boundary(t, p)
    &&& forall|k: int| p < k < o ==> !#[trigger] is_char_boundary(t, k)
}

/// `p` is where the row that holds `o` starts.
pub open spec fn is_row_start(t: Seq<u8>, o: int, p: int) -> bool {
    &&& 0 <= p <= o <= t.len()
    &&& p == 0 || t[p - 1] == 10
    &&& forall|k: int| p <= k < o ==> #[trigger] t[k] != 10
}

/// `q` is where the row that holds `o` ends.
pub open spec fn is_row_end(t: Seq<u8>, o: int, q: int) -> bool {
    &&& 0 <= o <= q <= t.len()
    &&& q == t.len() || t[q] == 10
    &&& forall|k: int| o <= k < q ==> #[trigger] t[k] != 10
}

proof fn lemma_ceil_over(t: Seq<u8>, o: int, b: int)
    requires
        0 < o <= b <= t.len(),
        b == t.len() || !is_continuation_byte(t[b]),
        forall|k: int| o <= k < b ==> is_continuation_byte(#[trigger] t[k]),
    ensures
        text::ceil_boundary(t, o) == b,
    decreases b - o,
{
    if o < b {
        assert(is_continuation_byte(t[o]));
        lemma_ceil_over(t, o + 1, b);
    }
}

proof fn lemma_floor_over(t: Seq<u8>, o: int, a: int)
    requires
        0 <= a <= o < t.len(),
        a == 0 || !is_continuation_byte(t[a]),
        forall|k: int| a < k <= o ==> is_continuation_byte(#[trigger] t[k]),
    ensures
        text::floor_boundary(t, o) == a,
    decreases o - a,
{
    if a < o {
        assert(is_continuation_byte(t[o]));
        lemma_floor_over(t, o - 1, a);
    }
}

pub proof fn lemma_next_boundary(t: Seq<u8>, o: int)
    requires
        valid_utf8(t),
        0 <= o < t.len(),
    ensures
        is_next_boundary(t, o, text::ceil_boundary(t, o + 1)),
{
    lemma_ceil_least(t, o + 1);
    text::lemma_ceil_boundary(t, o + 1);
    let p = text::ceil_boundary(t, o + 1);
    text::lemma_boundary(t, p);
    assert forall|k: int| o < k < p implies !#[trigger] is_char_boundary(t, k) by {
        text::lemma_boundary(t, k);
    }
}

proof fn lemma_ceil_least(t: Seq<u8>, o: int)
    requires
        0 < o <= t.len(),
    ensures
        forall|k: int| o <= k < text::ceil_boundary(t, o) ==> !#[trigger] text::is_boundary(t, k),
    decreases t.len() - o,
{
    if o < t.len() && is_continuation_byte(t[o]) {
        lemma_ceil_least(t, o + 1);
        text::lemma_ceil_boundary(t, o + 1);
    }
}

proof fn lemma_floor_greatest(t: Seq<u8>, o: int)
    requires
        0 <= o < t.len(),
    ensures
        forall|k: int| text::floor_boundary(t, o) < k <= o ==> !#[trigger] text::is_boundary(t, k),
    decreases o,
{
    if 0 < o && is_continuation_byte(t[o]) {
        lemma_floor_greatest(t, o - 1);
    }
}

pub proof fn lemma_previous_boundary(t: Seq<u8>, o: int)
    requires
        valid_utf8(t),
        0 < o <= t.len(),
    ensures
        is_previous_boundary(t, o, text::floor_boundary(t, o - 1)),
{
    lemma_floor_greatest(t, o - 1);
    text::lemma_floor_boundary(t, o - 1);
    let p = text::floor_boundary(t, o - 1);
    text::lemma_boundary(t, p);
    assert forall|k: int| p < k < o implies !#[trigger] is_char_boundary(t, k) by {
        text::lemma_boundary(t, k);
    }
}

/// Where the `i`th character of a text starts and ends, and how it is read there.
pub proof fn lemma_char_place(s: Seq<char>, i: int)
    requires
        0 <= i < s.len(),
    ensures
        ({
            let t = encode_utf8(s);
            let a = encode_utf8(s.take(i)).len() as int;
            let b = encode_utf8(s.take(i + 1)).len() as int;
            &&& 0 <= a < b <= t.len()
            &&& b == a + encode_utf8(seq![s[i]]).len()
            &&& text::ceil_boundary(t, a + 1) == b
            &&& text::floor_boundary(t, b - 1) == a
            &&& text::is_boundary(t, a)
            &&& text::is_boundary(t, b)
            &&& chars::char_at(t, a) == s[i]
            &&& chars::char_before(t, b) == s[i]
        }),
{
    let t = encode_utf8(s);
    let head = encode_utf8(s.take(i));
    let own = encode_utf8(seq![s[i]]);
    let rest = encode_utf8(s.skip(i + 1));
    let a = head.len() as int;
    assert(s =~= s.take(i) + (seq![s[i]] + s.skip(i + 1)));
    assert(s.skip(i) =~= seq![s[i]] + s.skip(i + 1));
    assert(s.take(i + 1) =~= s.take(i) + seq![s[i]]);
    text::lemma_encode_concat(s.take(i), seq![s[i]] + s.skip(i + 1));
    text::lemma_encode_concat(seq![s[i]], s.skip(i + 1));
    text::lemma_encode_concat(s.take(i), seq![s[i]]);
    let b = a + own.len();
    assert(encode_utf8(s.take(i + 1)).len() == b);
    let tail = encode_utf8(s.skip(i));
    assert(tail == own + rest);
    encode_utf8_valid_utf8(s);
    encode_utf8_valid_utf8(s.skip(i));
    encode_utf8_first_scalar(s.skip(i));
    assert(seq![s[i]].drop_first() =~= Seq::<char>::empty());
    assert(encode_utf8(seq![s[i]].drop_first()) =~= Seq::<u8>::empty());
    assert(own =~= encode_scalar(s[i] as u32));
    assert(length_of_first_scalar(tail) == own.len());
    assert(own.len() > 0);
    assert forall|k: int| a < k < b implies is_continuation_byte(#[trigger] t[k]) by {
        assert(t[k] == tail[k - a]);
        reveal_with_fuel(is_char_boundary, 2);
        is_char_boundary_iff_not_is_continuation_byte(tail, k - a);
    }
    is_char_boundary_start_end_of_seq(tail);
    is_char_boundary_iff_not_is_continuation_byte(tail, 0);
    assert(t[a] == tail[0]);
    if b < t.len() {
        let after = encode_utf8(s.skip(i + 1));
        encode_utf8_valid_utf8(s.skip(i + 1));
        is_char_boundary_start_end_of_seq(after);
        is_char_boundary_iff_not_is_continuation_byte(after, 0);
        assert(t[b] == after[0]);
    }
    lemma_ceil_over(t, a + 1, b);
    lemma_floor_over(t, b - 1, a);
    assert(t.subrange(a, b) =~= own);
    encode_utf8_decode_utf8(seq![s[i]]);
}

/// The row of a boundary starts and ends where `text` says.
pub proof fn lemma_row_ends(t: Seq<u8>, o: int)
    requires
        0 <= o <= t.len(),
        text::is_boundary(t, o),
    ensures
        is_row_start(t, o, text::line_start(t, text::row_at(t, o))),
        is_row_end(t, o, text::line_end(t, text::row_at(t, o))),
        text::floor_boundary(t, o) == o,
        text::row_at(t, o) == text::newlines(t, o),
{
    text::lemma_floor_boundary(t, o);
    text::lemma_row_at(t, o);
    text::lemma_line_start(t, text::row_at(t, o));
    text::lemma_line_end(t, text::row_at(t, o));
}

/// A row starts at one place only.
pub proof fn lemma_row_start_is_one(t: Seq<u8>, o: int, p: int, q: int)
    requires
        is_row_start(t, o, p),
        is_row_start(t, o, q),
    ensures
        p == q,
{
    if p < q {
        assert(t[q - 1] != 10);
    } else if q < p {
        assert(t[p - 1] != 10);
    }
}

/// A row ends at one place only.
pub proof fn lemma_row_end_is_one(t: Seq<u8>, o: int, p: int, q: int)
    requires
        is_row_end(t, o, p),
        is_row_end(t, o, q),
    ensures
        p == q,
{
    if p < q {
        assert(t[p] != 10);
    } else if q < p {
        assert(t[q] != 10);
    }
}

} // verus!

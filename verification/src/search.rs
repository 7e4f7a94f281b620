//! Looking for one sequence in another, in bytes and in text.

use vstd::prelude::*;
use vstd::utf8::{
    decode_utf8, decode_utf8_encode_utf8, decode_utf8_split, encode_scalar, encode_utf8,
    encode_utf8_decode_utf8, encode_utf8_first_scalar, encode_utf8_valid_utf8, is_char_boundary,
    is_char_boundary_iff_not_is_continuation_byte, is_char_boundary_start_end_of_seq,
    is_continuation_byte, length_of_first_scalar, partial_valid_partial_invalid_utf8, valid_utf8,
    valid_utf8_split,
};

verus! {

/// `needle` stands in `hay` at position `i`.
pub open spec fn occurs_at<T>(hay: Seq<T>, needle: Seq<T>, i: int) -> bool {
    &&& 0 <= i
    &&& i + needle.len() <= hay.len()
    &&& hay.subrange(i, i + needle.len()) == needle
}

/// The first position at which `needle` stands in `hay`.
pub open spec fn is_first<T>(hay: Seq<T>, needle: Seq<T>, i: int) -> bool {
    &&& occurs_at(hay, needle, i)
    &&& forall|j: int| 0 <= j < i ==> !#[trigger] occurs_at(hay, needle, j)
}

/// The first position at which `needle` stands in `hay`, if it does.
pub open spec fn first_occurrence<T>(hay: Seq<T>, needle: Seq<T>) -> Option<int> {
    if exists|i: int| is_first(hay, needle, i) {
        Some(choose|i: int| is_first(hay, needle, i))
    } else {
        None
    }
}

/// There is only one first position, and one wherever there is any.
pub proof fn lemma_first_occurrence<T>(hay: Seq<T>, needle: Seq<T>, i: int)
    requires
        occurs_at(hay, needle, i),
    ensures
        first_occurrence(hay, needle) matches Some(first) && is_first(hay, needle, first) && first
            <= i,
        is_first(hay, needle, i) ==> first_occurrence(hay, needle) == Some(i),
    decreases i,
{
    if is_first(hay, needle, i) {
        let first = choose|k: int| is_first(hay, needle, k);
        if first < i {
            assert(!occurs_at(hay, needle, first));
        } else if i < first {
            assert(!occurs_at(hay, needle, i));
        }
    } else {
        let j = choose|j: int| 0 <= j < i && #[trigger] occurs_at(hay, needle, j);
        lemma_first_occurrence(hay, needle, j);
    }
}

/// The bytes of `needle` stand in `hay` at position `i`.
pub(crate) fn matches_at(hay: &[u8], needle: &[u8], i: usize) -> (found: bool)
    requires
        i + needle.len() <= hay.len(),
    ensures
        found == occurs_at(hay@, needle@, i as int),
{
    let mut j: usize = 0;
    while j < needle.len()
        invariant
            j <= needle.len(),
            i + needle.len() <= hay.len(),
            forall|h: int| 0 <= h < j ==> hay@[i + h] == #[trigger] needle@[h],
        decreases needle.len() - j,
    {
        if hay[i + j] != needle[j] {
            assert(hay@.subrange(i as int, i + needle@.len())[j as int] != needle@[j as int]);
            return false;
        }
        j += 1;
    }
    assert(hay@.subrange(i as int, i + needle@.len()) == needle@);
    true
}

/// The first position of `needle` in `hay`.
pub fn find_bytes(hay: &[u8], needle: &[u8]) -> (found: Option<usize>)
    ensures
        match found {
            Some(i) => is_first(hay@, needle@, i as int) && first_occurrence(hay@, needle@) == Some(
                i as int,
            ),
            None => (forall|i: int| !#[trigger] occurs_at(hay@, needle@, i)) && first_occurrence(
                hay@,
                needle@,
            ) is None,
        },
{
    if needle.len() > hay.len() {
        return None;
    }
    let last = hay.len() - needle.len();
    let mut i: usize = 0;
    while i < last
        invariant
            i <= last,
            last + needle.len() == hay.len(),
            forall|j: int| 0 <= j < i ==> !#[trigger] occurs_at(hay@, needle@, j),
        decreases last - i,
    {
        if matches_at(hay, needle, i) {
            proof {
                lemma_first_occurrence(hay@, needle@, i as int);
            }
            return Some(i);
        }
        i += 1;
    }
    if matches_at(hay, needle, last) {
        proof {
            lemma_first_occurrence(hay@, needle@, last as int);
        }
        return Some(last);
    }
    None
}

// ---------------------------------------------------------------------------
// Text and its bytes
// ---------------------------------------------------------------------------

/// The bytes of two texts one after the other.
pub proof fn lemma_encode_concat(a: Seq<char>, b: Seq<char>)
    ensures
        encode_utf8(a + b) == encode_utf8(a) + encode_utf8(b),
    decreases a.len(),
{
    if a.len() == 0 {
        assert(a + b == b);
    } else {
        assert((a + b).drop_first() == a.drop_first() + b);
        lemma_encode_concat(a.drop_first(), b);
    }
}

/// Texts with the same bytes are the same.
pub proof fn lemma_encode_injective(a: Seq<char>, b: Seq<char>)
    requires
        encode_utf8(a) == encode_utf8(b),
    ensures
        a == b,
{
    encode_utf8_decode_utf8(a);
    encode_utf8_decode_utf8(b);
}

/// A text that is not empty has at least one byte.
pub proof fn lemma_encode_len(a: Seq<char>)
    ensures
        a.len() == 0 <==> encode_utf8(a).len() == 0,
        a.len() <= encode_utf8(a).len(),
    decreases a.len(),
{
    if a.len() > 0 {
        lemma_encode_len(a.drop_first());
        assert(encode_scalar(a[0] as u32).len() >= 1);
    }
}

/// A text ends at a character boundary of any text that it starts.
pub proof fn lemma_prefix_boundary(a: Seq<char>, b: Seq<char>)
    ensures
        is_char_boundary(encode_utf8(a + b), encode_utf8(a).len() as int),
        encode_utf8(a + b).subrange(0, encode_utf8(a).len() as int) == encode_utf8(a),
        encode_utf8(a + b).subrange(
            encode_utf8(a).len() as int,
            encode_utf8(a + b).len() as int,
        ) == encode_utf8(b),
{
    let all = encode_utf8(a + b);
    let k = encode_utf8(a).len() as int;
    lemma_encode_concat(a, b);
    encode_utf8_valid_utf8(a + b);
    encode_utf8_valid_utf8(b);
    assert(all.subrange(0, k) == encode_utf8(a));
    assert(all.subrange(k, all.len() as int) == encode_utf8(b));
    if b.len() == 0 {
        is_char_boundary_start_end_of_seq(all);
    } else {
        lemma_encode_len(b);
        assert(all[k] == encode_utf8(b)[0]);
        assert(!is_continuation_byte(encode_utf8(b)[0]));
        is_char_boundary_iff_not_is_continuation_byte(all, k);
    }
}

/// Where a text stands in another, so do its bytes.
pub proof fn lemma_occurs_in_bytes(hay: Seq<char>, needle: Seq<char>, i: int)
    requires
        occurs_at(hay, needle, i),
    ensures
        occurs_at(encode_utf8(hay), encode_utf8(needle), encode_utf8(hay.take(i)).len() as int),
{
    let before = hay.take(i);
    let after = hay.skip(i + needle.len());
    assert(hay == before + (needle + after)) by {
        assert(hay.subrange(i, i + needle.len()) == needle);
    }
    lemma_encode_concat(before, needle + after);
    lemma_encode_concat(needle, after);
    let k = encode_utf8(before).len() as int;
    assert(encode_utf8(hay).subrange(k, k + encode_utf8(needle).len()) == encode_utf8(needle));
}

/// Where the bytes of a text stand in the bytes of another, so does the text.
pub proof fn lemma_occurs_in_text(hay: Seq<char>, needle: Seq<char>, k: int) -> (i: int)
    requires
        occurs_at(encode_utf8(hay), encode_utf8(needle), k),
    ensures
        occurs_at(hay, needle, i),
        encode_utf8(hay.take(i)).len() == k || needle.len() == 0,
        needle.len() == 0 ==> i == 0,
{
    let bytes = encode_utf8(hay);
    let part = encode_utf8(needle);
    encode_utf8_valid_utf8(hay);
    encode_utf8_valid_utf8(needle);
    lemma_encode_len(needle);
    if needle.len() == 0 {
        assert(hay.subrange(0, 0) == needle);
        0
    } else {
        assert(bytes.subrange(k, k + part.len())[0] == part[0]);
        assert(!is_continuation_byte(part[0]));
        is_char_boundary_iff_not_is_continuation_byte(bytes, k);
        valid_utf8_split(bytes, k);
        let head = bytes.subrange(0, k);
        let tail = bytes.subrange(k, bytes.len() as int);
        decode_utf8_split(bytes, k);
        encode_utf8_decode_utf8(hay);
        let before = decode_utf8(head);
        let rest = decode_utf8(tail);
        decode_utf8_encode_utf8(head);
        decode_utf8_encode_utf8(tail);
        assert(hay == before + rest);
        // What follows the needle is valid text as well.
        let end = tail.subrange(part.len() as int, tail.len() as int);
        assert(tail.subrange(0, part.len() as int) == part) by {
            assert(tail.subrange(0, part.len() as int) == bytes.subrange(k, k + part.len()));
        }
        if !valid_utf8(end) {
            partial_valid_partial_invalid_utf8(tail, part.len() as int);
        }
        let after = decode_utf8(end);
        decode_utf8_encode_utf8(end);
        lemma_encode_concat(needle, after);
        assert(tail == part + end);
        lemma_encode_injective(rest, needle + after);
        let i = before.len() as int;
        assert(hay.take(i) == before);
        assert(hay.subrange(i, i + needle.len()) == needle);
        i
    }
}

/// The text before the first occurrence of `needle` and the text after it.
pub fn split_around<'a>(hay: &'a str, needle: &str) -> (parts: Option<(&'a str, &'a str)>)
    ensures
        match parts {
            Some((before, after)) => {
                &&& is_first(hay@, needle@, before@.len() as int)
                &&& first_occurrence(hay@, needle@) == Some(before@.len() as int)
                &&& hay@ == before@ + needle@ + after@
            },
            None => {
                &&& forall|i: int| !#[trigger] occurs_at(hay@, needle@, i)
                &&& first_occurrence(hay@, needle@) is None
            },
        },
{
    let found = find_bytes(hay.as_bytes(), needle.as_bytes());
    match found {
        None => {
            proof {
                assert forall|i: int| !#[trigger] occurs_at(hay@, needle@, i) by {
                    if occurs_at(hay@, needle@, i) {
                        lemma_occurs_in_bytes(hay@, needle@, i);
                    }
                }
            }
            None
        },
        Some(k) => {
            let ghost i: int = 0;
            proof {
                i = lemma_occurs_in_text(hay@, needle@, k as int);
                lemma_encode_len(needle@);
                if needle@.len() == 0 {
                    assert(encode_utf8(hay@).subrange(0, 0) == encode_utf8(needle@));
                    assert(occurs_at(encode_utf8(hay@), encode_utf8(needle@), 0));
                    assert(k == 0);
                    assert(hay@.take(0) == Seq::<char>::empty());
                    lemma_encode_len(hay@.take(0));
                }
                let rest = hay@.skip(i);
                assert(hay@ == hay@.take(i) + rest);
                lemma_prefix_boundary(hay@.take(i), rest);
                assert(rest == needle@ + hay@.skip(i + needle@.len())) by {
                    assert(hay@.subrange(i, i + needle@.len()) == needle@);
                }
                lemma_prefix_boundary(needle@, hay@.skip(i + needle@.len()));
            }
            let (before, rest) = hay.split_at(k);
            proof {
                lemma_encode_injective(before@, hay@.take(i));
                lemma_encode_injective(rest@, hay@.skip(i));
            }
            let (middle, after) = rest.split_at(needle.as_bytes().len());
            proof {
                lemma_encode_injective(middle@, needle@);
                lemma_encode_injective(after@, hay@.skip(i + needle@.len()));
                assert forall|j: int| 0 <= j < i implies !#[trigger] occurs_at(
                    hay@,
                    needle@,
                    j,
                ) by {
                    if occurs_at(hay@, needle@, j) {
                        lemma_occurs_in_bytes(hay@, needle@, j);
                        let cut = hay@.subrange(j, i);
                        assert(hay@.take(i) == hay@.take(j) + cut);
                        lemma_encode_concat(hay@.take(j), cut);
                        lemma_encode_len(cut);
                    }
                }
                lemma_first_occurrence(hay@, needle@, i);
            }
            Some((before, after))
        },
    }
}

/// The first character of a text, and the rest.
pub fn split_first<'a>(text: &'a str) -> (parts: (&'a str, &'a str))
    requires
        text@.len() > 0,
    ensures
        parts.0@ == text@.take(1),
        parts.1@ == text@.skip(1),
{
    let ghost first = text@.take(1);
    let ghost rest = text@.skip(1);
    let ghost bytes = encode_utf8(text@);
    let ghost width = encode_utf8(first).len() as int;
    proof {
        assert(text@ == first + rest);
        lemma_prefix_boundary(first, rest);
        lemma_encode_len(first);
        lemma_encode_concat(first, rest);
        encode_utf8_valid_utf8(text@);
        encode_utf8_first_scalar(text@);
        assert(first.drop_first() == Seq::<char>::empty());
        assert(encode_utf8(first.drop_first()) == Seq::<u8>::empty());
        assert(width == length_of_first_scalar(bytes));
    }
    let mut k: usize = 1;
    while !text.is_char_boundary(k)
        invariant
            bytes == encode_utf8(text@),
            1 <= k <= width <= bytes.len(),
            valid_utf8(bytes),
            is_char_boundary(bytes, width),
            width == length_of_first_scalar(bytes),
        decreases width - k,
    {
        k += 1;
    }
    assert(k == width) by {
        reveal_with_fuel(is_char_boundary, 2);
    }
    let parts = text.split_at(k);
    proof {
        lemma_encode_injective(parts.0@, first);
        lemma_encode_injective(parts.1@, rest);
    }
    parts
}

/// A sequence stands in another at a position where all its items are those that
/// follow the position.
pub proof fn law_occurrence_is_item_by_item<T>(hay: Seq<T>, needle: Seq<T>, i: int)
    requires
        0 <= i,
    ensures
        occurs_at(hay, needle, i) <==> {
            &&& i + needle.len() <= hay.len()
            &&& forall|j: int| 0 <= j < needle.len() ==> hay[i + j] == #[trigger] needle[j]
        },
{
    if i + needle.len() <= hay.len() {
        let part = hay.subrange(i, i + needle.len());
        if part == needle {
            assert forall|j: int| 0 <= j < needle.len() implies hay[i + j]
                == #[trigger] needle[j] by {
                assert(part[j] == hay[i + j]);
            }
        }
        if forall|j: int| 0 <= j < needle.len() ==> hay[i + j] == #[trigger] needle[j] {
            assert(part == needle);
        }
    }
}

} // verus!

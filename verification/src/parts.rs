//! Cutting a text at its end tokens.

use vstd::prelude::*;

use crate::search::{
    first_occurrence, is_first, lemma_first_occurrence, occurs_at, split_around, split_first,
};

verus! {

/// A part of a text, and whether an end token follows it.
pub type Part = (Seq<char>, bool);

/// The parts of a text between end tokens, where an end token is not empty. What
/// follows the last one is a part if there is anything.
pub open spec fn cut_parts(end_token: Seq<char>, text: Seq<char>) -> Seq<Part>
    decreases text.len(),
{
    if text.len() == 0 || end_token.len() == 0 {
        Seq::empty()
    } else {
        match first_occurrence(text, end_token) {
            None => seq![(text, false)],
            Some(i) => if 0 <= i && i + end_token.len() <= text.len() {
                seq![(text.take(i), true)] + cut_parts(end_token, text.skip(i + end_token.len()))
            } else {
                Seq::empty()
            },
        }
    }
}

/// The parts of a text. An empty end token stands before, between and after all
/// characters.
pub open spec fn text_parts(end_token: Seq<char>, text: Seq<char>) -> Seq<Part> {
    if end_token.len() == 0 {
        seq![(Seq::empty(), true)] + text.map_values(|c: char| (seq![c], true))
    } else {
        cut_parts(end_token, text)
    }
}

/// A part with the end token that follows it.
pub open spec fn whole_part(end_token: Seq<char>, part: Part) -> Seq<char> {
    if part.1 {
        part.0 + end_token
    } else {
        part.0
    }
}

/// Parts one after the other, with the end tokens that follow them.
pub open spec fn joined(end_token: Seq<char>, parts: Seq<Part>) -> Seq<char> {
    parts.map_values(|part: Part| whole_part(end_token, part)).flatten()
}

/// What string slices and marks stand for.
pub open spec fn parts_view(parts: Seq<(&str, bool)>) -> Seq<Part> {
    parts.map_values(|part: (&str, bool)| (part.0@, part.1))
}

/// The first part of a text in which an end token stands.
proof fn lemma_first_part(
    end_token: Seq<char>,
    text: Seq<char>,
    part: Seq<char>,
    after: Seq<char>,
)
    requires
        end_token.len() > 0,
        text == part + end_token + after,
        first_occurrence(text, end_token) == Some(part.len() as int),
    ensures
        cut_parts(end_token, text) == seq![(part, true)] + cut_parts(end_token, after),
{
    assert(text.take(part.len() as int) == part);
    assert(text.skip(part.len() as int + end_token.len()) == after);
}

/// The parts of a text between end tokens, each with whether one follows it.
pub fn split_parts<'a>(text: &'a str, end_token: &str) -> (parts: Vec<(&'a str, bool)>)
    ensures
        parts_view(parts@) == text_parts(end_token@, text@),
{
    let mut parts: Vec<(&'a str, bool)> = Vec::new();
    let mut rest: &'a str = text;
    if end_token.is_empty() {
        parts.push(("", true));
        let ghost f = |c: char| (seq![c], true);
        proof {
            reveal_strlit("");
            assert(""@ == Seq::<char>::empty());
            assert(text@.take(0).map_values(f) == Seq::<Part>::empty());
            assert(parts_view(parts@) == seq![(Seq::<char>::empty(), true)] + text@.take(
                0,
            ).map_values(f));
            assert(text@.skip(0) == text@);
        }
        let ghost mut done: int = 0;
        while !rest.is_empty()
            invariant
                0 <= done <= text@.len(),
                rest@ == text@.skip(done),
                f == (|c: char| (seq![c], true)),
                parts_view(parts@) == seq![(Seq::<char>::empty(), true)] + text@.take(
                    done,
                ).map_values(f),
            decreases rest@.len(),
        {
            let ghost before = parts@;
            let (first, after) = split_first(rest);
            parts.push((first, true));
            rest = after;
            proof {
                assert(first@ == seq![text@[done]]);
                assert(text@.take(done + 1).map_values(f) == text@.take(done).map_values(f).push(
                    (first@, true),
                ));
                assert(parts_view(parts@) == parts_view(before).push((first@, true)));
                assert(text@.skip(done).skip(1) == text@.skip(done + 1));
                done = done + 1;
            }
        }
        assert(text@.take(done) == text@);
        parts
    } else {
        proof {
            assert(parts_view(parts@) + cut_parts(end_token@, rest@) == cut_parts(
                end_token@,
                text@,
            ));
        }
        loop
            invariant
                end_token@.len() > 0,
                parts_view(parts@) + cut_parts(end_token@, rest@) == cut_parts(end_token@, text@),
            decreases rest@.len(),
        {
            let ghost before = parts@;
            let ghost left = rest@;
            match split_around(rest, end_token) {
                None => {
                    if !rest.is_empty() {
                        parts.push((rest, false));
                        assert(parts_view(parts@) == parts_view(before).push((left, false)));
                    } else {
                        assert(parts_view(parts@) == parts_view(before) + Seq::<Part>::empty());
                    }
                    return parts;
                },
                Some((part, after)) => {
                    parts.push((part, true));
                    rest = after;
                    proof {
                        lemma_first_part(end_token@, left, part@, after@);
                        assert(parts_view(parts@) == parts_view(before).push((part@, true)));
                        assert(parts_view(parts@) + cut_parts(end_token@, after@) == parts_view(
                            before,
                        ) + cut_parts(end_token@, left));
                    }
                },
            }
        }
    }
}

/// What two lists of parts are together.
pub proof fn lemma_joined_concat(end_token: Seq<char>, a: Seq<Part>, b: Seq<Part>)
    ensures
        joined(end_token, a + b) == joined(end_token, a) + joined(end_token, b),
{
    let f = |part: Part| whole_part(end_token, part);
    assert((a + b).map_values(f) == a.map_values(f) + b.map_values(f));
    vstd::seq_lib::lemma_flatten_concat(a.map_values(f), b.map_values(f));
}

/// What a single part is.
pub proof fn lemma_joined_one(end_token: Seq<char>, part: Part)
    ensures
        joined(end_token, seq![part]) == whole_part(end_token, part),
{
    let f = |part: Part| whole_part(end_token, part);
    assert(seq![part].map_values(f) == seq![f(part)]);
    seq![f(part)].lemma_flatten_one_element();
}

proof fn lemma_cut_parts_joined(end_token: Seq<char>, text: Seq<char>)
    requires
        end_token.len() > 0,
    ensures
        joined(end_token, cut_parts(end_token, text)) == text,
    decreases text.len(),
{
    let parts = cut_parts(end_token, text);
    let f = |part: Part| whole_part(end_token, part);
    if text.len() == 0 {
        assert(parts.map_values(f) == Seq::<Seq<char>>::empty());
    } else if exists|k: int| #[trigger] occurs_at(text, end_token, k) {
        let k = choose|k: int| #[trigger] occurs_at(text, end_token, k);
        lemma_first_occurrence(text, end_token, k);
        let i = first_occurrence(text, end_token)->0;
        let rest = text.skip(i + end_token.len());
        lemma_cut_parts_joined(end_token, rest);
        lemma_joined_concat(end_token, seq![(text.take(i), true)], cut_parts(end_token, rest));
        lemma_joined_one(end_token, (text.take(i), true));
        assert(text == text.take(i) + end_token + rest) by {
            assert(text.subrange(i, i + end_token.len()) == end_token);
        }
    } else {
        assert(first_occurrence(text, end_token) is None);
        lemma_joined_one(end_token, (text, false));
    }
}

proof fn lemma_chars_joined(end_token: Seq<char>, text: Seq<char>)
    requires
        end_token.len() == 0,
    ensures
        joined(end_token, text.map_values(|c: char| (seq![c], true))) == text,
    decreases text.len(),
{
    let f = |c: char| (seq![c], true);
    if text.len() == 0 {
        assert(text.map_values(f).map_values(|part: Part| whole_part(end_token, part)) == Seq::<
            Seq<char>,
        >::empty());
    } else {
        let shorter = text.drop_last();
        lemma_chars_joined(end_token, shorter);
        assert(text.map_values(f) == shorter.map_values(f) + seq![f(text.last())]);
        lemma_joined_concat(end_token, shorter.map_values(f), seq![f(text.last())]);
        lemma_joined_one(end_token, f(text.last()));
        assert(seq![text.last()] + end_token == seq![text.last()]);
        assert(shorter + seq![text.last()] == text);
    }
}

/// The parts of a text, with the end tokens between them, make up the text.
pub proof fn law_parts_make_up_the_text(end_token: Seq<char>, text: Seq<char>)
    ensures
        joined(end_token, text_parts(end_token, text)) == text,
{
    if end_token.len() == 0 {
        let start = seq![(Seq::<char>::empty(), true)];
        let chars = text.map_values(|c: char| (seq![c], true));
        lemma_chars_joined(end_token, text);
        lemma_joined_concat(end_token, start, chars);
        lemma_joined_one(end_token, start[0]);
        assert(Seq::<char>::empty() + end_token == Seq::<char>::empty());
        assert(Seq::<char>::empty() + text == text);
    } else {
        lemma_cut_parts_joined(end_token, text);
    }
}

/// No end of the text is also its start, except for the whole.
pub open spec fn border_free(text: Seq<char>) -> bool {
    forall|d: int|
        0 < d < text.len() ==> #[trigger] text.skip(d) != text.take(text.len() - d)
}

/// A text is cut at an end token that stands in it into the parts before it and
/// the parts after it, where no two end tokens can overlap.
pub proof fn law_end_token_separates(end_token: Seq<char>, a: Seq<char>, b: Seq<char>)
    requires
        end_token.len() > 0,
        border_free(end_token),
    ensures
        text_parts(end_token, a + end_token + b) == text_parts(end_token, a + end_token)
            + text_parts(end_token, b),
    decreases a.len(),
{
    let whole = a + end_token + b;
    let start = a + end_token;
    let n = end_token.len() as int;
    assert forall|j: int| j <= a.len() implies (#[trigger] occurs_at(whole, end_token, j)
        == occurs_at(start, end_token, j)) by {
        if 0 <= j {
            assert(whole.subrange(j, j + n) == start.subrange(j, j + n));
        }
    }
    assert(start.subrange(a.len() as int, a.len() + n) == end_token);
    assert(occurs_at(start, end_token, a.len() as int));
    lemma_first_occurrence(start, end_token, a.len() as int);
    let f = first_occurrence(start, end_token)->0;
    assert(is_first(whole, end_token, f)) by {
        assert(occurs_at(whole, end_token, f));
        assert forall|j: int| 0 <= j < f implies !#[trigger] occurs_at(whole, end_token, j) by {
            assert(!occurs_at(start, end_token, j));
        }
    }
    lemma_first_occurrence(whole, end_token, f);
    assert(whole.take(f) == start.take(f));
    if f == a.len() {
        assert(whole.skip(f + n) == b);
        assert(start.skip(f + n) == Seq::<char>::empty());
    } else {
        let d = a.len() - f;
        if d < n {
            assert(start.subrange(f, f + n) == end_token);
            assert(end_token.skip(d) == end_token.take(n - d)) by {
                assert forall|i: int| 0 <= i < n - d implies end_token.skip(d)[i]
                    == end_token.take(n - d)[i] by {
                    assert(start.subrange(f, f + n)[d + i] == start[a.len() + i]);
                }
            }
        }
        let rest = a.skip(f + n);
        assert(whole.skip(f + n) == rest + end_token + b);
        assert(start.skip(f + n) == rest + end_token);
        law_end_token_separates(end_token, rest, b);
    }
    let first = seq![(start.take(f), true)];
    let mid = cut_parts(end_token, start.skip(f + n));
    let last = cut_parts(end_token, b);
    assert(first + (mid + last) == (first + mid) + last);
}

/// The parts of a text with an end token behind it: the end token follows the
/// last part, or the empty part where every part has its end token already.
pub open spec fn ended_parts(parts: Seq<Part>) -> Seq<Part> {
    if parts.len() > 0 && !parts.last().1 {
        parts.drop_last().push((parts.last().0, true))
    } else {
        parts.push((Seq::empty(), true))
    }
}

/// An end token behind a text ends its last part, where no two end tokens can
/// overlap.
pub proof fn law_end_token_ends_the_last_part(end_token: Seq<char>, a: Seq<char>)
    requires
        end_token.len() > 0,
        border_free(end_token),
    ensures
        text_parts(end_token, a + end_token) == ended_parts(text_parts(end_token, a)),
    decreases a.len(),
{
    let whole = a + end_token;
    let n = end_token.len() as int;
    let parts = cut_parts(end_token, a);
    assert forall|j: int| j + n <= a.len() implies (#[trigger] occurs_at(whole, end_token, j)
        == occurs_at(a, end_token, j)) by {
        if 0 <= j {
            assert(whole.subrange(j, j + n) == a.subrange(j, j + n));
        }
    }
    assert forall|j: int| a.len() - n < j < a.len() implies !#[trigger] occurs_at(
        whole,
        end_token,
        j,
    ) by {
        if occurs_at(whole, end_token, j) {
            let d = a.len() - j;
            assert(end_token.skip(d) == end_token.take(n - d)) by {
                assert forall|i: int| 0 <= i < n - d implies end_token.skip(d)[i]
                    == end_token.take(n - d)[i] by {
                    assert(whole.subrange(j, j + n)[d + i] == whole[a.len() + i]);
                }
            }
        }
    }
    assert(whole.subrange(a.len() as int, a.len() + n) == end_token);
    assert(occurs_at(whole, end_token, a.len() as int));
    if exists|k: int| #[trigger] occurs_at(a, end_token, k) {
        let k = choose|k: int| #[trigger] occurs_at(a, end_token, k);
        lemma_first_occurrence(a, end_token, k);
        let f = first_occurrence(a, end_token)->0;
        assert(is_first(whole, end_token, f)) by {
            assert(occurs_at(whole, end_token, f));
            assert forall|j: int| 0 <= j < f implies !#[trigger] occurs_at(
                whole,
                end_token,
                j,
            ) by {
                assert(!occurs_at(a, end_token, j));
            }
        }
        lemma_first_occurrence(whole, end_token, f);
        let rest = a.skip(f + n);
        assert(whole.take(f) == a.take(f));
        assert(whole.skip(f + n) == rest + end_token);
        law_end_token_ends_the_last_part(end_token, rest);
        let first = seq![(a.take(f), true)];
        let more = cut_parts(end_token, rest);
        assert(parts == first + more);
        assert(cut_parts(end_token, whole) == first + cut_parts(end_token, rest + end_token));
        if more.len() > 0 {
            assert((first + more).last() == more.last());
            assert((first + more).drop_last() == first + more.drop_last());
        }
        assert(first + ended_parts(more) == ended_parts(first + more));
    } else {
        assert(is_first(whole, end_token, a.len() as int)) by {
            assert forall|j: int| 0 <= j < a.len() implies !#[trigger] occurs_at(
                whole,
                end_token,
                j,
            ) by {
                assert(!occurs_at(a, end_token, j));
            }
        }
        lemma_first_occurrence(whole, end_token, a.len() as int);
        assert(whole.take(a.len() as int) == a);
        assert(whole.skip(a.len() + n) == Seq::<char>::empty());
        assert(cut_parts(end_token, whole.skip(a.len() + n)) == Seq::<Part>::empty());
        assert(cut_parts(end_token, whole) == seq![(a, true)]);
        if a.len() > 0 {
            assert(first_occurrence(a, end_token) is None);
            assert(parts == seq![(a, false)]);
        } else {
            assert(a == Seq::<char>::empty());
        }
        assert(ended_parts(parts) == seq![(a, true)]);
    }
}

/// Every part but the last is followed by an end token. The first end token in a
/// part and what follows it is the one behind the part. A last part without an end
/// token is not empty and has none in it either.
pub proof fn law_parts_reach_to_the_next_end_token(end_token: Seq<char>, text: Seq<char>, i: int)
    requires
        end_token.len() > 0,
        0 <= i < text_parts(end_token, text).len(),
    ensures
        ({
            let parts = text_parts(end_token, text);
            let (part, ended) = parts[i];
            &&& i < parts.len() - 1 ==> ended
            &&& ended ==> is_first(part + end_token, end_token, part.len() as int)
            &&& !ended ==> part.len() > 0 && forall|j: int| !#[trigger]
                occurs_at(part, end_token, j)
        }),
    decreases text.len(),
{
    let n = end_token.len() as int;
    if exists|k: int| #[trigger] occurs_at(text, end_token, k) {
        let k = choose|k: int| #[trigger] occurs_at(text, end_token, k);
        lemma_first_occurrence(text, end_token, k);
        let f = first_occurrence(text, end_token)->0;
        let rest = text.skip(f + n);
        let more = cut_parts(end_token, rest);
        let part = text.take(f);
        assert(cut_parts(end_token, text) == seq![(part, true)] + more);
        if i == 0 {
            let whole = part + end_token;
            assert(whole == text.take(f + n)) by {
                assert(text.subrange(f, f + n) == end_token);
            }
            assert(whole.subrange(f, f + n) == end_token);
            assert forall|j: int| 0 <= j < f implies !#[trigger] occurs_at(
                whole,
                end_token,
                j,
            ) by {
                assert(whole.subrange(j, j + n) == text.subrange(j, j + n));
                assert(!occurs_at(text, end_token, j));
            }
        } else {
            law_parts_reach_to_the_next_end_token(end_token, rest, i - 1);
        }
    } else {
        assert(first_occurrence(text, end_token) is None);
    }
}

/// An empty end token ends the empty part before the text and each of its
/// characters.
pub proof fn law_empty_end_token_cuts_everywhere(text: Seq<char>)
    ensures
        text_parts(Seq::empty(), text).len() == text.len() + 1,
        text_parts(Seq::empty(), text)[0] == (Seq::<char>::empty(), true),
        forall|i: int|
            0 < i <= text.len() ==> #[trigger] text_parts(Seq::empty(), text)[i] == (
                seq![text[i - 1]],
                true,
            ),
{
}

} // verus!

//! Adjacent pairs of tokens: counting them and merging them.

use indexmap::IndexMap;
use vstd::prelude::*;

use crate::ordered::{
    count_entries, counts_slot, has_key, lemma_put, lookup, lookup_or, put, unique_keys, TokenID,
};

verus! {

/// A pair of adjacent tokens.
pub type Pair = (TokenID, TokenID);

/// The bytes of a text, each as the token that stands for it.
pub open spec fn byte_tokens(bytes: Seq<u8>) -> Seq<TokenID> {
    bytes.map_values(|b: u8| b as TokenID)
}

/// The tokens with every occurrence of `pair`, taken from the left without
/// overlap, replaced by `new_id`.
pub open spec fn merged(ids: Seq<TokenID>, pair: Pair, new_id: TokenID) -> Seq<TokenID>
    decreases ids.len(),
{
    if ids.len() == 0 {
        ids
    } else if ids.len() >= 2 && (ids[0], ids[1]) == pair {
        seq![new_id] + merged(ids.skip(2), pair, new_id)
    } else {
        seq![ids[0]] + merged(ids.skip(1), pair, new_id)
    }
}

/// The tokens with every `new_id` replaced by the two tokens of `pair`.
pub open spec fn expanded(ids: Seq<TokenID>, pair: Pair, new_id: TokenID) -> Seq<TokenID>
    decreases ids.len(),
{
    if ids.len() == 0 {
        ids
    } else if ids[0] == new_id {
        seq![pair.0, pair.1] + expanded(ids.skip(1), pair, new_id)
    } else {
        seq![ids[0]] + expanded(ids.skip(1), pair, new_id)
    }
}

/// The pair of tokens that starts at a position.
pub open spec fn pair_at(ids: Seq<TokenID>, i: int) -> Pair {
    (ids[i], ids[i + 1])
}

/// At how many positions a pair starts.
pub open spec fn occurrences(ids: Seq<TokenID>, pair: Pair) -> nat
    decreases ids.len(),
{
    if ids.len() < 2 {
        0
    } else {
        occurrences(ids.drop_last(), pair) + if pair_at(ids, ids.len() - 2) == pair {
            1nat
        } else {
            0nat
        }
    }
}

/// The counts after `weight` was added for each position of `ids` to the count
/// of the pair that starts there, from left to right.
pub open spec fn tally_pairs(
    counts: Seq<(Pair, usize)>,
    ids: Seq<TokenID>,
    weight: usize,
) -> Seq<(Pair, usize)>
    decreases ids.len(),
{
    if ids.len() < 2 {
        counts
    } else {
        let before = tally_pairs(counts, ids.drop_last(), weight);
        let pair = pair_at(ids, ids.len() - 2);
        put(before, pair, (lookup_or(before, pair, 0) + weight) as usize)
    }
}

/// No count grows past what a `usize` holds while pairs are tallied.
pub open spec fn tally_fits(counts: Seq<(Pair, usize)>, ids: Seq<TokenID>, weight: usize) -> bool {
    forall|i: int|
        0 <= i < ids.len() - 1 ==> lookup_or(
            tally_pairs(counts, #[trigger] ids.take(i + 1), weight),
            pair_at(ids, i),
            0,
        ) + weight <= usize::MAX
}

/// The bytes of `text`, each as a token.
pub fn encode_text(text: &str) -> (ids: Vec<TokenID>)
    ensures
        ids@ == byte_tokens(vstd::utf8::encode_utf8(text@)),
{
    let bytes = text.as_bytes();
    let mut ids: Vec<TokenID> = Vec::new();
    for i in 0..bytes.len()
        invariant
            ids@ == byte_tokens(bytes@.take(i as int)),
    {
        ids.push(bytes[i] as TokenID);
        assert(bytes@.take(i + 1) == bytes@.take(i as int).push(bytes@[i as int]));
    }
    assert(bytes@.take(bytes@.len() as int) == bytes@);
    ids
}

/// Replaces `pair` in `ids` by `new_id`.
pub fn merge(ids: &[TokenID], pair: (TokenID, TokenID), new_id: TokenID) -> (result: Vec<TokenID>)
    ensures
        result@ == merged(ids@, pair, new_id),
{
    let mut result: Vec<TokenID> = Vec::new();
    let mut i: usize = 0;
    assert(ids@.skip(0) == ids@);
    while i < ids.len()
        invariant
            i <= ids.len(),
            result@ + merged(ids@.skip(i as int), pair, new_id) == merged(ids@, pair, new_id),
        decreases ids.len() - i,
    {
        let ghost rest = ids@.skip(i as int);
        assert(rest.skip(1) == ids@.skip(i + 1));
        if ids.len() - i >= 2 && ids[i] == pair.0 && ids[i + 1] == pair.1 {
            assert(rest.skip(2) == ids@.skip(i + 2));
            result.push(new_id);
            i += 2;
        } else {
            result.push(ids[i]);
            i += 1;
        }
    }
    assert(ids@.skip(i as int) == Seq::<TokenID>::empty());
    result
}

/// Adds `weight` to the count of every pair of adjacent tokens in `ids`.
pub fn count_pairs(ids: &[TokenID], counts: &mut IndexMap<(TokenID, TokenID), usize>, weight: usize)
    requires
        tally_fits(count_entries(*old(counts)), ids@, weight),
    ensures
        count_entries(*final(counts)) == tally_pairs(count_entries(*old(counts)), ids@, weight),
{
    let ghost start = count_entries(*counts);
    let mut i: usize = 1;
    while i < ids.len()
        invariant
            1 <= i,
            i <= ids.len() || ids.len() == 0,
            tally_fits(start, ids@, weight),
            count_entries(*counts) == tally_pairs(
                start,
                ids@.take(if i <= ids.len() {
                    i as int
                } else {
                    0
                }),
                weight,
            ),
        decreases ids.len() - i,
    {
        let pair = (ids[i - 1], ids[i]);
        proof {
            let so_far = ids@.take(i - 1 + 1);
            assert(pair == pair_at(ids@, i - 1));
            assert(ids@.take(i + 1).drop_last() == so_far);
            assert(pair_at(ids@.take(i + 1), i - 1) == pair);
        }
        let slot = counts_slot(counts, pair);
        *slot = *slot + weight;
        i += 1;
    }
    assert(ids.len() > 0 ==> ids@.take(i as int) == ids@);
}

/// Tallying keeps the pairs unique and adds to each count the weight of the
/// pair's occurrences.
pub proof fn lemma_tally_pairs(counts: Seq<(Pair, usize)>, ids: Seq<TokenID>, weight: usize)
    requires
        unique_keys(counts),
        forall|p: Pair|
            lookup_or(counts, p, 0) + weight * #[trigger] occurrences(ids, p) <= usize::MAX,
    ensures
        unique_keys(tally_pairs(counts, ids, weight)),
        tally_fits(counts, ids, weight),
        forall|p: Pair| #[trigger]
            lookup_or(tally_pairs(counts, ids, weight), p, 0) == lookup_or(counts, p, 0) + weight
                * occurrences(ids, p),
        forall|p: Pair| #[trigger]
            has_key(tally_pairs(counts, ids, weight), p) <==> has_key(counts, p) || occurrences(
                ids,
                p,
            ) > 0,
    decreases ids.len(),
{
    if ids.len() >= 2 {
        let shorter = ids.drop_last();
        let last = pair_at(ids, ids.len() - 2);
        assert forall|p: Pair| lookup_or(counts, p, 0) + weight * #[trigger] occurrences(
            shorter,
            p,
        ) <= usize::MAX by {
            assert(occurrences(shorter, p) <= occurrences(ids, p));
            assert(weight * occurrences(shorter, p) <= weight * occurrences(ids, p))
                by (nonlinear_arith)
                requires
                    occurrences(shorter, p) <= occurrences(ids, p),
            ;
        }
        lemma_tally_pairs(counts, shorter, weight);
        let before = tally_pairs(counts, shorter, weight);
        assert(occurrences(ids, last) == occurrences(shorter, last) + 1);
        assert(weight * (occurrences(shorter, last) + 1) == weight * occurrences(shorter, last)
            + weight) by (nonlinear_arith);
        lemma_put(before, last, (lookup_or(before, last, 0) + weight) as usize);
        let after = tally_pairs(counts, ids, weight);
        assert forall|p: Pair| #[trigger]
            lookup_or(after, p, 0) == lookup_or(counts, p, 0) + weight * occurrences(ids, p) by {
            assert(lookup(after, p) == if p == last {
                Some((lookup_or(before, last, 0) + weight) as usize)
            } else {
                lookup(before, p)
            });
            assert(lookup_or(before, p, 0) == lookup_or(counts, p, 0) + weight * occurrences(
                shorter,
                p,
            ));
        }
        assert forall|p: Pair| #[trigger] has_key(after, p) <==> has_key(counts, p) || occurrences(
            ids,
            p,
        ) > 0 by {
            assert(has_key(before, p) <==> has_key(counts, p) || occurrences(shorter, p) > 0);
        }
        assert forall|i: int| 0 <= i < ids.len() - 1 implies lookup_or(
            tally_pairs(counts, #[trigger] ids.take(i + 1), weight),
            pair_at(ids, i),
            0,
        ) + weight <= usize::MAX by {
            if i == ids.len() - 2 {
                assert(ids.take(i + 1) == shorter);
                assert(lookup_or(before, last, 0) == lookup_or(counts, last, 0) + weight
                    * occurrences(shorter, last));
            } else {
                assert(ids.take(i + 1) == shorter.take(i + 1));
                assert(pair_at(ids, i) == pair_at(shorter, i));
            }
        }
    } else {
        assert forall|p: Pair| #[trigger] lookup_or(counts, p, 0) == lookup_or(counts, p, 0)
            + weight * occurrences(ids, p) by {
            assert(weight * 0 == 0) by (nonlinear_arith);
        }
    }
}

/// A pair occurs if and only if it starts somewhere.
pub proof fn lemma_occurrences(ids: Seq<TokenID>, pair: Pair)
    ensures
        occurrences(ids, pair) > 0 <==> exists|i: int|
            0 <= i < ids.len() - 1 && #[trigger] pair_at(ids, i) == pair,
        ids.len() > 0 ==> occurrences(ids, pair) < ids.len(),
        ids.len() == 0 ==> occurrences(ids, pair) == 0,
    decreases ids.len(),
{
    if ids.len() >= 2 {
        let shorter = ids.drop_last();
        lemma_occurrences(shorter, pair);
        assert forall|i: int| 0 <= i < shorter.len() - 1 implies pair_at(shorter, i) == pair_at(
            ids,
            i,
        ) by {}
        if occurrences(shorter, pair) > 0 {
            let i = choose|i: int| 0 <= i < shorter.len() - 1 && pair_at(shorter, i) == pair;
            assert(pair_at(ids, i) == pair);
        }
        if exists|i: int| 0 <= i < ids.len() - 1 && pair_at(ids, i) == pair {
            let i = choose|i: int| 0 <= i < ids.len() - 1 && pair_at(ids, i) == pair;
            if i < ids.len() - 2 {
                assert(pair_at(shorter, i) == pair);
            }
        }
    }
}

/// Merging a pair that does not occur changes nothing.
pub proof fn lemma_merge_absent(ids: Seq<TokenID>, pair: Pair, new_id: TokenID)
    requires
        occurrences(ids, pair) == 0,
    ensures
        merged(ids, pair, new_id) == ids,
    decreases ids.len(),
{
    lemma_occurrences(ids, pair);
    if ids.len() > 0 {
        let rest = ids.skip(1);
        if ids.len() >= 2 {
            assert(pair_at(ids, 0) != pair);
        }
        lemma_occurrences(rest, pair);
        if occurrences(rest, pair) > 0 {
            let i = choose|i: int| 0 <= i < rest.len() - 1 && pair_at(rest, i) == pair;
            assert(pair_at(ids, i + 1) == pair);
        }
        lemma_merge_absent(rest, pair, new_id);
        assert(seq![ids[0]] + rest == ids);
    }
}

/// Merging never makes a sequence longer or empty, and a pair that occurs makes
/// it shorter and brings the new token in.
pub proof fn lemma_merge_shrinks(ids: Seq<TokenID>, pair: Pair, new_id: TokenID)
    ensures
        merged(ids, pair, new_id).len() <= ids.len(),
        ids.len() > 0 ==> merged(ids, pair, new_id).len() > 0,
        occurrences(ids, pair) > 0 ==> merged(ids, pair, new_id).len() < ids.len(),
        occurrences(ids, pair) > 0 ==> merged(ids, pair, new_id).contains(new_id),
    decreases ids.len(),
{
    let all = merged(ids, pair, new_id);
    lemma_occurrences(ids, pair);
    if ids.len() > 0 {
        if ids.len() >= 2 && (ids[0], ids[1]) == pair {
            lemma_merge_shrinks(ids.skip(2), pair, new_id);
            assert(all[0] == new_id);
        } else {
            let rest = ids.skip(1);
            let tail = merged(rest, pair, new_id);
            lemma_merge_shrinks(rest, pair, new_id);
            lemma_occurrences(rest, pair);
            if occurrences(ids, pair) > 0 {
                let i = choose|i: int| 0 <= i < ids.len() - 1 && pair_at(ids, i) == pair;
                assert(i > 0);
                assert(pair_at(rest, i - 1) == pair);
                assert(all[tail.index_of(new_id) + 1] == new_id);
            }
        }
    }
}

/// The tokens of a merged sequence are those of the sequence and the new one.
pub proof fn lemma_merge_tokens(ids: Seq<TokenID>, pair: Pair, new_id: TokenID)
    ensures
        forall|k: int|
            0 <= k < merged(ids, pair, new_id).len() ==> {
                let token = #[trigger] merged(ids, pair, new_id)[k];
                token == new_id || ids.contains(token)
            },
    decreases ids.len(),
{
    let all = merged(ids, pair, new_id);
    if ids.len() > 0 {
        let step: int = if ids.len() >= 2 && (ids[0], ids[1]) == pair {
            2
        } else {
            1
        };
        let rest = ids.skip(step);
        let tail = merged(rest, pair, new_id);
        lemma_merge_tokens(rest, pair, new_id);
        assert forall|k: int| 0 <= k < all.len() implies {
            let token = #[trigger] all[k];
            token == new_id || ids.contains(token)
        } by {
            if k == 0 {
                assert(ids.contains(ids[0]));
            } else {
                assert(all[k] == tail[k - 1]);
                if tail[k - 1] != new_id {
                    let i = rest.index_of(tail[k - 1]);
                    assert(ids[i + step] == tail[k - 1]);
                }
            }
        }
    }
}

/// After a pair was merged into a token that did not occur before, two adjacent
/// tokens other than the new one were adjacent before and are not the pair.
pub proof fn lemma_merge_adjacent(ids: Seq<TokenID>, pair: Pair, new_id: TokenID, k: int)
    requires
        0 <= k < merged(ids, pair, new_id).len() - 1,
        merged(ids, pair, new_id)[k] != new_id,
        merged(ids, pair, new_id)[k + 1] != new_id,
    ensures
        pair_at(merged(ids, pair, new_id), k) != pair,
        occurrences(ids, pair_at(merged(ids, pair, new_id), k)) > 0,
    decreases ids.len(),
{
    let all = merged(ids, pair, new_id);
    let here = pair_at(all, k);
    lemma_occurrences(ids, here);
    let starts = ids.len() >= 2 && (ids[0], ids[1]) == pair;
    let step: int = if starts {
        2
    } else {
        1
    };
    let rest = ids.skip(step);
    let tail = merged(rest, pair, new_id);
    lemma_merge_shrinks(rest, pair, new_id);
    if k == 0 {
        assert(!starts);
        assert(all[1] == tail[0]);
        assert(rest.len() > 0);
        assert(tail[0] == rest[0]);
        assert(pair_at(ids, 0) == here);
    } else {
        assert(all[k] == tail[k - 1] && all[k + 1] == tail[k]);
        assert(pair_at(tail, k - 1) == here);
        lemma_merge_adjacent(rest, pair, new_id, k - 1);
        lemma_occurrences(rest, here);
        let i = choose|i: int| 0 <= i < rest.len() - 1 && pair_at(rest, i) == here;
        assert(pair_at(ids, i + step) == here);
    }
}

/// Merging a pair into a token that did not occur before is undone by writing
/// the pair out again.
pub proof fn law_expand_undoes_merge(ids: Seq<TokenID>, pair: Pair, new_id: TokenID)
    requires
        !ids.contains(new_id),
    ensures
        expanded(merged(ids, pair, new_id), pair, new_id) == ids,
    decreases ids.len(),
{
    let all = merged(ids, pair, new_id);
    if ids.len() > 0 {
        let step: int = if ids.len() >= 2 && (ids[0], ids[1]) == pair {
            2
        } else {
            1
        };
        let rest = ids.skip(step);
        assert(!rest.contains(new_id)) by {
            if rest.contains(new_id) {
                let i = rest.index_of(new_id);
                assert(ids[i + step] == new_id);
            }
        }
        law_expand_undoes_merge(rest, pair, new_id);
        assert(all.skip(1) == merged(rest, pair, new_id));
        assert(ids.contains(ids[0]));
        assert(expanded(all, pair, new_id) == ids);
    }
}

/// A pair that was merged into a token that did not occur before occurs no more.
pub proof fn law_merged_pair_is_gone(ids: Seq<TokenID>, pair: Pair, new_id: TokenID)
    requires
        !ids.contains(new_id),
    ensures
        occurrences(merged(ids, pair, new_id), pair) == 0,
{
    let all = merged(ids, pair, new_id);
    lemma_occurrences(all, pair);
    lemma_occurrences(ids, pair);
    if occurrences(all, pair) > 0 {
        let k = choose|k: int| 0 <= k < all.len() - 1 && pair_at(all, k) == pair;
        if pair.0 != new_id && pair.1 != new_id {
            lemma_merge_adjacent(ids, pair, new_id, k);
        } else {
            // The pair holds the new token, so it did not occur before either.
            if occurrences(ids, pair) > 0 {
                let i = choose|i: int| 0 <= i < ids.len() - 1 && pair_at(ids, i) == pair;
                assert(ids.contains(ids[i]) && ids.contains(ids[i + 1]));
            }
            lemma_merge_absent(ids, pair, new_id);
        }
    }
}

/// The tokens of bytes are their values, one for each byte.
pub proof fn law_bytes_are_their_own_tokens(bytes: Seq<u8>)
    ensures
        byte_tokens(bytes).len() == bytes.len(),
        forall|i: int| 0 <= i < bytes.len() ==> #[trigger] byte_tokens(bytes)[i] == bytes[i] as int,
{
}

/// A pair occurs in two sequences, one after the other, as often as in both of them,
/// and once more where it stands across the seam. It does not occur in one token.
pub proof fn law_occurrences_add_up(a: Seq<TokenID>, b: Seq<TokenID>, pair: Pair)
    requires
        a.len() > 0,
        b.len() > 0,
    ensures
        occurrences(a + b, pair) == occurrences(a, pair) + occurrences(b, pair) + if a.last()
            == pair.0 && b[0] == pair.1 {
            1int
        } else {
            0
        },
        a.len() == 1 ==> occurrences(a, pair) == 0,
        occurrences(Seq::empty(), pair) == 0,
    decreases b.len(),
{
    let all = a + b;
    if b.len() == 1 {
        assert(all.drop_last() == a);
        assert(pair_at(all, all.len() - 2) == (a.last(), b[0]));
    } else {
        let shorter = b.drop_last();
        law_occurrences_add_up(a, shorter, pair);
        assert(all.drop_last() == a + shorter);
        assert(pair_at(all, all.len() - 2) == pair_at(b, b.len() - 2));
    }
}

/// Merging replaces the first occurrence of the pair by the new token and goes on
/// behind it. Where the pair does not occur, nothing changes.
pub proof fn law_merging_goes_from_left_to_right(
    ids: Seq<TokenID>,
    pair: Pair,
    new_id: TokenID,
    i: int,
)
    requires
        0 <= i <= ids.len(),
        forall|j: int|
            0 <= j < i && j + 1 < ids.len() ==> !((#[trigger] ids[j]) == pair.0 && ids[j + 1]
                == pair.1),
    ensures
        i + 1 < ids.len() && ids[i] == pair.0 && ids[i + 1] == pair.1 ==> merged(ids, pair, new_id)
            == ids.take(i) + seq![new_id] + merged(ids.skip(i + 2), pair, new_id),
        i == ids.len() ==> merged(ids, pair, new_id) == ids,
    decreases i,
{
    if i == 0 {
        assert(ids.take(0) + seq![new_id] == seq![new_id]);
    } else {
        let rest = ids.skip(1);
        assert forall|j: int| 0 <= j < i - 1 && j + 1 < rest.len() implies !((#[trigger] rest[j])
            == pair.0 && rest[j + 1] == pair.1) by {
            assert(ids[j + 1] == rest[j]);
        }
        law_merging_goes_from_left_to_right(rest, pair, new_id, i - 1);
        assert(!(ids.len() >= 2 && (ids[0], ids[1]) == pair)) by {
            assert(ids[0] == ids[0]);
        }
        assert(merged(ids, pair, new_id) == seq![ids[0]] + merged(rest, pair, new_id));
        if i + 1 < ids.len() {
            assert(rest.skip(i + 1) == ids.skip(i + 2));
        }
        assert(seq![ids[0]] + rest.take(i - 1) == ids.take(i));
        assert(seq![ids[0]] + rest == ids);
    }
}

} // verus!

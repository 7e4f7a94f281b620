//! Learning merge rules: the most frequent pair of adjacent tokens becomes a
//! token of its own, again and again.

use indexmap::{IndexMap, IndexSet};
use vstd::prelude::*;

use crate::ordered::{
    count_entries, counts_new, has_key, index_entries, index_new, index_swap_remove,
    lemma_position, lemma_put, lemma_swap_drop, lookup, lookup_or, position, put, rule_entries,
    rules_insert, rules_new, set_get_index, set_items, swap_drop, unique_keys, word_entries,
    words_get_index, words_slot, words_swap_remove, TokenID,
};
use crate::pair_index::{
    best_counted, counts_valid, forget_word, listed, places_valid, rank_below, record_word, Places,
};
use crate::pairs::{
    law_expand_undoes_merge, law_merged_pair_is_gone, lemma_merge_absent, lemma_merge_adjacent,
    lemma_merge_shrinks, lemma_merge_tokens, lemma_occurrences, merge, merged, occurrences,
    pair_at, Pair,
};
use crate::tokenizer::apply_rules;
use crate::words::{
    corpus_size, lemma_pair_weight, lemma_total_prefix, lemma_total_put, lemma_total_same,
    lemma_total_share, lemma_total_swap_drop, pair_weight, positive, same_words, total, Counted,
};

verus! {

/// Tokens below this number stand for single bytes.
pub const BYTE_TOKENS: usize = 256;

/// How many merges have a token number of their own.
pub const MAX_MERGES: usize = 65280;

/// The token that the merge of a given step makes.
pub open spec fn merge_id(step: int) -> TokenID {
    (step + BYTE_TOKENS) as TokenID
}

/// Of all pairs that occur, this one has the highest rank: by how often it
/// occurs, then by the pair itself.
pub open spec fn is_best(words: Counted, pair: Pair) -> bool {
    &&& pair_weight(words, pair) > 0
    &&& forall|p: Pair|
        #![trigger pair_weight(words, p)]
        pair_weight(words, p) > 0 && p != pair ==> rank_below(
            (pair_weight(words, p), p),
            (pair_weight(words, pair), pair),
        )
}

/// The words with a pair merged in each of them.
pub open spec fn merged_words(words: Counted, pair: Pair, new_id: TokenID) -> Counted {
    words.map_values(|entry: (Seq<TokenID>, usize)| (merged(entry.0, pair, new_id), entry.1))
}

/// The best pair, if any pair occurs.
pub open spec fn best_pair(words: Counted) -> Option<Pair> {
    if exists|pair: Pair| is_best(words, pair) {
        Some(choose|pair: Pair| is_best(words, pair))
    } else {
        None
    }
}

/// The rules of the steps from `step` up to `merges`: the best pair is merged in
/// all words, until none is left.
pub open spec fn greedy_rules(words: Counted, step: nat, merges: nat) -> Seq<(Pair, TokenID)>
    decreases merges - step,
{
    if step >= merges {
        Seq::empty()
    } else {
        match best_pair(words) {
            None => Seq::empty(),
            Some(pair) => seq![(pair, merge_id(step as int))] + greedy_rules(
                merged_words(words, pair, merge_id(step as int)),
                step + 1,
                merges,
            ),
        }
    }
}

// ---------------------------------------------------------------------------
// One word after the other
// ---------------------------------------------------------------------------

/// The words after one of them was replaced by another, which takes its count
/// over.
pub open spec fn replaced(words: Counted, word: Seq<TokenID>, by: Seq<TokenID>) -> Counted {
    let rest = swap_drop(words, word);
    put(rest, by, (lookup_or(rest, by, 0) + lookup_or(words, word, 0)) as usize)
}

/// The words after a pair was merged in the words of `order`, one after the
/// other.
pub open spec fn replaced_all(
    words: Counted,
    order: Seq<Seq<TokenID>>,
    pair: Pair,
    new_id: TokenID,
) -> Counted
    decreases order.len(),
{
    if order.len() == 0 {
        words
    } else {
        replaced(
            replaced_all(words, order.drop_last(), pair, new_id),
            order.last(),
            merged(order.last(), pair, new_id),
        )
    }
}

/// `order` has each word in which the pair occurs once, and no other word.
pub open spec fn visits(words: Counted, pair: Pair, order: Seq<Seq<TokenID>>) -> bool {
    &&& order.no_duplicates()
    &&& forall|word: Seq<TokenID>| #[trigger]
        order.contains(word) <==> has_key(words, word) && occurrences(word, pair) > 0
}

/// The words after the first `k` steps of a run that merges `pairs` and visits
/// the words of each step in the order given.
pub open spec fn words_after(
    words: Counted,
    pairs: Seq<Pair>,
    orders: Seq<Seq<Seq<TokenID>>>,
    k: int,
) -> Counted
    decreases k,
{
    if k <= 0 {
        words
    } else {
        replaced_all(
            words_after(words, pairs, orders, k - 1),
            orders[k - 1],
            pairs[k - 1],
            merge_id(k - 1),
        )
    }
}

/// A step of a run: its pair is the best of the words before it, and its order
/// visits the words in which that pair occurs.
pub open spec fn step_valid(
    words: Counted,
    pairs: Seq<Pair>,
    orders: Seq<Seq<Seq<TokenID>>>,
    k: int,
) -> bool {
    &&& is_best(words_after(words, pairs, orders, k), pairs[k])
    &&& visits(words_after(words, pairs, orders, k), pairs[k], orders[k])
}

/// A run of at most `merges` steps which stops early only where no pair is left.
pub open spec fn is_run(
    words: Counted,
    merges: nat,
    pairs: Seq<Pair>,
    orders: Seq<Seq<Seq<TokenID>>>,
) -> bool {
    &&& pairs.len() == orders.len()
    &&& pairs.len() <= merges
    &&& forall|k: int| 0 <= k < pairs.len() ==> #[trigger] step_valid(words, pairs, orders, k)
    &&& pairs.len() < merges ==> forall|p: Pair|
        pair_weight(words_after(words, pairs, orders, pairs.len() as int), p) == 0
}

/// The rules of the first `k` steps, in the order in which a map keeps them.
pub open spec fn rules_after(pairs: Seq<Pair>, k: int) -> Seq<(Pair, TokenID)>
    decreases k,
{
    if k <= 0 {
        Seq::empty()
    } else {
        put(rules_after(pairs, k - 1), pairs[k - 1], merge_id(k - 1))
    }
}

/// There are at most as many rules as steps, one for each pair.
pub proof fn lemma_rules_after(pairs: Seq<Pair>, k: int)
    requires
        0 <= k <= pairs.len(),
    ensures
        rules_after(pairs, k).len() <= k,
        unique_keys(rules_after(pairs, k)),
    decreases k,
{
    if k > 0 {
        lemma_rules_after(pairs, k - 1);
        lemma_put(rules_after(pairs, k - 1), pairs[k - 1], merge_id(k - 1));
    }
}

// ---------------------------------------------------------------------------
// The index of the pairs belongs to the words
// ---------------------------------------------------------------------------

/// The counts are those of the pairs in the words.
pub open spec fn counts_match(words: Counted, counts: Seq<(Pair, usize)>) -> bool {
    &&& counts_valid(counts)
    &&& forall|p: Pair| #[trigger] lookup_or(counts, p, 0) == pair_weight(words, p)
}

/// A pair's list has the words in which it occurs.
pub open spec fn places_match(words: Counted, places: Places) -> bool {
    &&& places_valid(places)
    &&& forall|p: Pair, w: Seq<TokenID>| #[trigger]
        listed(places, p, w) <==> has_key(words, w) && occurrences(w, p) > 0
}

/// The words are distinct, each occurs, and all their tokens can be counted.
pub open spec fn words_valid(words: Counted) -> bool {
    &&& unique_keys(words)
    &&& positive(words)
    &&& corpus_size(words) <= usize::MAX
}

/// What replacing a word by a shorter one does.
proof fn lemma_replaced(words: Counted, word: Seq<TokenID>, by: Seq<TokenID>)
    requires
        words_valid(words),
        has_key(words, word),
        0 < by.len() <= word.len(),
        by != word,
    ensures
        words_valid(replaced(words, word, by)),
        corpus_size(replaced(words, word, by)) <= corpus_size(words),
        lookup_or(swap_drop(words, word), by, 0) + lookup_or(words, word, 0) <= usize::MAX,
        lookup_or(words, word, 0) > 0,
        forall|w: Seq<TokenID>| #[trigger]
            has_key(replaced(words, word, by), w) <==> w == by || (w != word && has_key(words, w)),
        forall|p: Pair| #[trigger]
            pair_weight(replaced(words, word, by), p) == pair_weight(words, p) - lookup_or(
                words,
                word,
                0,
            ) * occurrences(word, p) + lookup_or(words, word, 0) * occurrences(by, p),
        forall|p: Pair|
            lookup_or(words, word, 0) * #[trigger] occurrences(word, p) <= pair_weight(words, p),
{
    let rest = swap_drop(words, word);
    let count = lookup_or(words, word, 0);
    let old_count = lookup_or(rest, by, 0);
    let p0 = position(words, word);
    assert(words[p0].0 == word);
    assert(words[p0].1 > 0);
    lemma_swap_drop(words, word);
    let len = |w: Seq<TokenID>| w.len();
    lemma_total_swap_drop(words, word, len);
    // The counts that come together fit, since the tokens of both words do.
    if has_key(rest, by) {
        let q = position(rest, by);
        assert(rest[q].0 == by);
        lemma_total_share(rest, q, len);
        assert(old_count * by.len() <= total(rest, len));
    } else {
        assert(old_count * by.len() == 0) by (nonlinear_arith)
            requires
                old_count == 0,
        ;
    }
    assert((old_count + count) * by.len() == old_count * by.len() + count * by.len())
        by (nonlinear_arith);
    assert(count * by.len() <= count * word.len()) by (nonlinear_arith)
        requires
            by.len() <= word.len(),
    ;
    assert(old_count + count <= (old_count + count) * by.len()) by (nonlinear_arith)
        requires
            by.len() >= 1,
            old_count + count >= 0,
    ;
    assert(corpus_size(words) == total(words, len));
    let sum = (old_count + count) as usize;
    let after = put(rest, by, sum);
    lemma_put(rest, by, sum);
    lemma_total_put(rest, by, sum, len);
    assert(corpus_size(after) == total(after, len));
    assert(positive(after)) by {
        assert forall|i: int| 0 <= i < after.len() implies (#[trigger] after[i]).1 > 0 by {
            lemma_position(after, i);
            let w = after[i].0;
            if w != by {
                assert(lookup(after, w) == lookup(rest, w));
                assert(lookup(rest, w) == lookup(words, w));
                let j = position(words, w);
                assert(words[j].1 > 0);
            }
        }
    }
    assert forall|w: Seq<TokenID>| #[trigger]
        has_key(after, w) <==> w == by || (w != word && has_key(words, w)) by {
        assert(has_key(rest, w) <==> w != word && has_key(words, w));
    }
    assert forall|p: Pair| #[trigger]
        pair_weight(after, p) == pair_weight(words, p) - count * occurrences(word, p) + count
            * occurrences(by, p) by {
        let occ = |w: Seq<TokenID>| occurrences(w, p);
        lemma_total_swap_drop(words, word, occ);
        lemma_total_put(rest, by, sum, occ);
        assert(sum * occurrences(by, p) == old_count * occurrences(by, p) + count * occurrences(
            by,
            p,
        )) by (nonlinear_arith)
            requires
                sum == old_count + count,
        ;
        assert(pair_weight(after, p) == total(after, occ));
        assert(pair_weight(words, p) == total(words, occ));
    }
    assert forall|p: Pair| count * #[trigger] occurrences(word, p) <= pair_weight(words, p) by {
        let occ = |w: Seq<TokenID>| occurrences(w, p);
        lemma_total_share(words, p0, occ);
        assert(pair_weight(words, p) == total(words, occ));
    }
}

/// Taking a pair's list out leaves the others.
proof fn lemma_swap_drop_places(places: Places, pair: Pair)
    requires
        places_valid(places),
    ensures
        places_valid(swap_drop(places, pair)),
        forall|p: Pair, w: Seq<TokenID>| #[trigger]
            listed(swap_drop(places, pair), p, w) <==> p != pair && listed(places, p, w),
{
    lemma_swap_drop(places, pair);
    let after = swap_drop(places, pair);
    assert forall|i: int| 0 <= i < after.len() implies (#[trigger] after[i]).1.no_duplicates() by {
        lemma_position(after, i);
        assert(lookup(after, after[i].0) == lookup(places, after[i].0));
        let j = position(places, after[i].0);
        assert(places[j].1.no_duplicates());
    }
    assert forall|p: Pair, w: Seq<TokenID>| #[trigger]
        listed(after, p, w) <==> p != pair && listed(places, p, w) by {
        assert(lookup(after, p) == if p == pair {
            None
        } else {
            lookup(places, p)
        });
    }
}

/// The lists while the words of `waiting` have not been replaced yet: they are
/// right but for the list of `pair`, which may lack words that are waiting.
spec fn places_nearly_match(
    words: Counted,
    places: Places,
    pair: Pair,
    waiting: Seq<Seq<TokenID>>,
) -> bool {
    &&& places_valid(places)
    &&& forall|p: Pair, w: Seq<TokenID>| #[trigger]
        listed(places, p, w) ==> has_key(words, w) && occurrences(w, p) > 0
    &&& forall|p: Pair, w: Seq<TokenID>|
        has_key(words, w) && occurrences(w, p) > 0 && !(p == pair && waiting.contains(w))
            ==> #[trigger] listed(places, p, w)
}

/// Merges `pair` in every word in which it occurs.
fn merge_everywhere(
    words: &mut IndexMap<Vec<TokenID>, usize>,
    counts: &mut IndexMap<(TokenID, TokenID), usize>,
    places: &mut IndexMap<(TokenID, TokenID), IndexSet<Vec<TokenID>>>,
    pair: (TokenID, TokenID),
    new_id: TokenID,
)
    requires
        words_valid(word_entries(*old(words))),
        counts_match(word_entries(*old(words)), count_entries(*old(counts))),
        places_match(word_entries(*old(words)), index_entries(*old(places))),
        pair_weight(word_entries(*old(words)), pair) > 0,
    ensures
        words_valid(word_entries(*final(words))),
        counts_match(word_entries(*final(words)), count_entries(*final(counts))),
        places_match(word_entries(*final(words)), index_entries(*final(places))),
        exists|order: Seq<Seq<TokenID>>|
            visits(word_entries(*old(words)), pair, order) && word_entries(*final(words))
                == #[trigger] replaced_all(word_entries(*old(words)), order, pair, new_id),
{
    let ghost words0 = word_entries(*words);
    let ghost places0 = index_entries(*places);
    proof {
        lemma_pair_weight(words0, pair);
        let i = choose|i: int|
            0 <= i < words0.len() && occurrences((#[trigger] words0[i]).0, pair) > 0;
        assert(has_key(words0, words0[i].0));
        assert(listed(places0, pair, words0[i].0));
        lemma_swap_drop_places(places0, pair);
    }
    let removed = index_swap_remove(places, pair);
    let affected = removed.unwrap();
    let ghost order = set_items(affected);
    proof {
        let j = position(places0, pair);
        assert(places0[j].1 == order);
        assert(order.no_duplicates());
        assert forall|word: Seq<TokenID>| #[trigger]
            order.contains(word) <==> has_key(words0, word) && occurrences(word, pair) > 0 by {
            assert(listed(places0, pair, word) <==> order.contains(word));
        }
        assert forall|j: int| 0 <= j < order.len() implies has_key(words0, #[trigger] order[j]) by {
            assert(order.contains(order[j]));
        }
        assert(order.take(0) == Seq::<Seq<TokenID>>::empty());
        assert(order.skip(0) == order);
        assert(places_nearly_match(words0, index_entries(*places), pair, order)) by {
            assert forall|p: Pair, w: Seq<TokenID>|
                has_key(words0, w) && occurrences(w, p) > 0 && !(p == pair && order.contains(
                    w,
                )) implies #[trigger] listed(index_entries(*places), p, w) by {
                assert(listed(places0, p, w));
            }
        }
    }
    let mut k: usize = 0;
    loop
        invariant_except_break
            k <= order.len(),
        invariant
            order == set_items(affected),
            visits(words0, pair, order),
            word_entries(*words) == replaced_all(words0, order.take(k as int), pair, new_id),
            words_valid(word_entries(*words)),
            counts_match(word_entries(*words), count_entries(*counts)),
            places_nearly_match(
                word_entries(*words),
                index_entries(*places),
                pair,
                order.skip(k as int),
            ),
            forall|j: int|
                k <= j < order.len() ==> has_key(word_entries(*words), #[trigger] order[j]),
        ensures
            k == order.len(),
        decreases order.len() - k,
    {
        let next = set_get_index(&affected, k);
        if next.is_none() {
            break;
        }
        let word = next.unwrap();
        let ghost before = word_entries(*words);
        let ghost counted = count_entries(*counts);
        let ghost listed_before = index_entries(*places);
        assert(word@ == order[k as int]);
        assert(order.contains(word@));
        assert(occurrences(word@, pair) > 0);
        let new_word = merge(word, pair, new_id);
        proof {
            lemma_merge_shrinks(word@, pair, new_id);
            lemma_replaced(before, word@, new_word@);
        }
        let ghost after = replaced(before, word@, new_word@);
        let taken = words_swap_remove(words, word);
        let count = taken.unwrap();
        let copy = new_word.clone();
        assert(copy@ == new_word@);
        let slot = words_slot(words, copy);
        *slot = *slot + count;
        assert(word_entries(*words) == after);
        proof {
            assert forall|p: Pair| count * #[trigger] occurrences(word@, p) <= lookup_or(
                counted,
                p,
                0,
            ) by {
                assert(lookup_or(counted, p, 0) == pair_weight(before, p));
            }
        }
        forget_word(counts, places, word, count);
        let ghost forgotten = count_entries(*counts);
        let ghost unlisted = index_entries(*places);
        proof {
            assert forall|p: Pair| lookup_or(forgotten, p, 0) + count * #[trigger] occurrences(
                new_word@,
                p,
            ) <= usize::MAX by {
                assert(lookup_or(forgotten, p, 0) == lookup_or(counted, p, 0) - count
                    * occurrences(word@, p));
                assert(lookup_or(counted, p, 0) == pair_weight(before, p));
                assert(pair_weight(after, p) == pair_weight(before, p) - count * occurrences(
                    word@,
                    p,
                ) + count * occurrences(new_word@, p));
                lemma_pair_weight(after, p);
            }
        }
        record_word(counts, places, &new_word, count);
        k += 1;
        proof {
            assert(order.take(k as int).drop_last() == order.take(k - 1));
            assert(order.take(k as int).last() == word@);
            assert forall|p: Pair| #[trigger]
                lookup_or(count_entries(*counts), p, 0) == pair_weight(after, p) by {
                assert(lookup_or(counted, p, 0) == pair_weight(before, p));
                assert(lookup_or(forgotten, p, 0) == lookup_or(counted, p, 0) - count
                    * occurrences(word@, p));
            }
            assert forall|j: int| k <= j < order.len() implies has_key(
                after,
                #[trigger] order[j],
            ) by {
                assert(has_key(before, order[j]));
                assert(order[j] != order[k - 1]);
            }
            let waiting_before = order.skip(k - 1);
            let waiting = order.skip(k as int);
            let now = index_entries(*places);
            assert(waiting_before.drop_first() == waiting);
            assert forall|p: Pair, w: Seq<TokenID>| #[trigger] listed(now, p, w) implies has_key(
                after,
                w,
            ) && occurrences(w, p) > 0 by {
                assert(listed(now, p, w) <==> listed(unlisted, p, w) || (w == new_word@
                    && occurrences(new_word@, p) > 0));
                assert(listed(unlisted, p, w) <==> listed(listed_before, p, w) && !(w == word@
                    && occurrences(word@, p) > 0));
            }
            assert forall|p: Pair, w: Seq<TokenID>|
                has_key(after, w) && occurrences(w, p) > 0 && !(p == pair && waiting.contains(
                    w,
                )) implies #[trigger] listed(now, p, w) by {
                assert(listed(now, p, w) <==> listed(unlisted, p, w) || (w == new_word@
                    && occurrences(new_word@, p) > 0));
                assert(listed(unlisted, p, w) <==> listed(listed_before, p, w) && !(w == word@
                    && occurrences(word@, p) > 0));
                if w != new_word@ {
                    assert(has_key(before, w) && w != word@);
                    if waiting_before.contains(w) {
                        let j = waiting_before.index_of(w);
                        assert(j != 0);
                        assert(waiting[j - 1] == w);
                    }
                    assert(listed(listed_before, p, w));
                }
            }
        }
    }
    proof {
        assert(order.take(k as int) == order);
        let waiting = order.skip(k as int);
        let now = index_entries(*places);
        assert forall|p: Pair, w: Seq<TokenID>| #[trigger]
            listed(now, p, w) <==> has_key(word_entries(*words), w) && occurrences(w, p) > 0 by {
            assert(!waiting.contains(w));
        }
    }
}

// ---------------------------------------------------------------------------
// A run makes the greedy rules
// ---------------------------------------------------------------------------

/// Every token of every word is below a bound.
pub open spec fn tokens_below(words: Counted, bound: int) -> bool {
    forall|i: int, j: int|
        0 <= i < words.len() && 0 <= j < words[i].0.len() ==> #[trigger] words[i].0[j] < bound
}

/// The token occurs in no word.
pub open spec fn is_fresh(words: Counted, id: TokenID) -> bool {
    forall|word: Seq<TokenID>| #[trigger] has_key(words, word) ==> !word.contains(id)
}

/// At most one pair is the best.
proof fn lemma_best_unique(words: Counted, a: Pair, b: Pair)
    requires
        is_best(words, a),
        is_best(words, b),
    ensures
        a == b,
{
    if a != b {
        assert(rank_below((pair_weight(words, a), a), (pair_weight(words, b), b)));
        assert(rank_below((pair_weight(words, b), b), (pair_weight(words, a), a)));
    }
}

/// Merging a pair into a new token keeps distinct words apart.
proof fn lemma_merge_injective(a: Seq<TokenID>, b: Seq<TokenID>, pair: Pair, new_id: TokenID)
    requires
        !a.contains(new_id),
        !b.contains(new_id),
        merged(a, pair, new_id) == merged(b, pair, new_id),
    ensures
        a == b,
{
    law_expand_undoes_merge(a, pair, new_id);
    law_expand_undoes_merge(b, pair, new_id);
}

/// A word of `order` becomes `word` when the pair is merged in it.
spec fn comes_from(
    order: Seq<Seq<TokenID>>,
    pair: Pair,
    new_id: TokenID,
    word: Seq<TokenID>,
    source: Seq<TokenID>,
) -> bool {
    order.contains(source) && merged(source, pair, new_id) == word
}

/// What the words are after some of them were replaced, where the new token is
/// fresh.
proof fn lemma_replaced_some(
    words: Counted,
    order: Seq<Seq<TokenID>>,
    pair: Pair,
    new_id: TokenID,
    k: int,
)
    requires
        unique_keys(words),
        is_fresh(words, new_id),
        visits(words, pair, order),
        0 <= k <= order.len(),
    ensures
        unique_keys(replaced_all(words, order.take(k), pair, new_id)),
        forall|w: Seq<TokenID>|
            order.take(k).contains(w) ==> #[trigger] lookup(
                replaced_all(words, order.take(k), pair, new_id),
                w,
            ) is None,
        forall|w: Seq<TokenID>, source: Seq<TokenID>| #[trigger]
            comes_from(order.take(k), pair, new_id, w, source) ==> lookup(
                replaced_all(words, order.take(k), pair, new_id),
                w,
            ) == lookup(words, source),
        forall|w: Seq<TokenID>|
            !order.take(k).contains(w) && !(exists|source: Seq<TokenID>| #[trigger]
                comes_from(order.take(k), pair, new_id, w, source)) ==> #[trigger] lookup(
                replaced_all(words, order.take(k), pair, new_id),
                w,
            ) == lookup(words, w),
    decreases k,
{
    let done = order.take(k);
    if k == 0 {
        assert(done == Seq::<Seq<TokenID>>::empty());
    } else {
        let earlier = order.take(k - 1);
        let word = order[k - 1];
        let new_word = merged(word, pair, new_id);
        lemma_replaced_some(words, order, pair, new_id, k - 1);
        let before = replaced_all(words, earlier, pair, new_id);
        assert(done.drop_last() == earlier);
        assert(done.last() == word);
        assert(order.contains(word));
        assert(has_key(words, word) && occurrences(word, pair) > 0);
        lemma_merge_shrinks(word, pair, new_id);
        assert(!word.contains(new_id));
        // `word` is still there, under its own count.
        assert(!earlier.contains(word)) by {
            if earlier.contains(word) {
                let j = earlier.index_of(word);
                assert(order[j] == order[k - 1]);
            }
        }
        assert forall|source: Seq<TokenID>| comes_from(
            earlier,
            pair,
            new_id,
            word,
            source,
        ) implies false by {
            lemma_sources(order, earlier, k - 1, source);
            lemma_merge_shrinks(source, pair, new_id);
        }
        assert(lookup(before, word) == lookup(words, word));
        // `new_word` is not there yet.
        assert(!earlier.contains(new_word)) by {
            if earlier.contains(new_word) {
                lemma_sources(order, earlier, k - 1, new_word);
                assert(has_key(words, new_word));
            }
        }
        assert forall|source: Seq<TokenID>| comes_from(
            earlier,
            pair,
            new_id,
            new_word,
            source,
        ) implies false by {
            lemma_sources(order, earlier, k - 1, source);
            assert(has_key(words, source));
            lemma_merge_injective(source, word, pair, new_id);
        }
        assert(lookup(words, new_word) is None) by {
            assert(!has_key(words, new_word));
        }
        assert(lookup(before, new_word) is None);
        let rest = swap_drop(before, word);
        lemma_swap_drop(before, word);
        assert(lookup(rest, new_word) is None);
        let count = lookup_or(before, word, 0);
        let after = put(rest, new_word, count);
        lemma_put(rest, new_word, count);
        assert(after == replaced_all(words, done, pair, new_id));
        assert forall|w: Seq<TokenID>| #[trigger]
            done.contains(w) <==> w == word || earlier.contains(w) by {
            if done.contains(w) {
                let j = done.index_of(w);
                if j < k - 1 {
                    assert(earlier[j] == w);
                }
            }
            if earlier.contains(w) {
                assert(done[earlier.index_of(w)] == w);
            }
            assert(done[k - 1] == word);
        }
        assert forall|w: Seq<TokenID>| #[trigger]
            lookup(after, w) == (if w == new_word {
                Some(count)
            } else if w == word {
                None
            } else {
                lookup(before, w)
            }) by {
            assert(lookup(rest, w) == if w == word {
                None
            } else {
                lookup(before, w)
            });
        }
        assert forall|w: Seq<TokenID>| done.contains(w) implies #[trigger] lookup(
            after,
            w,
        ) is None by {
            if w != word {
                assert(lookup(before, w) is None);
            }
            lemma_sources(order, done, k, w);
            assert(!w.contains(new_id));
        }
        assert forall|w: Seq<TokenID>, source: Seq<TokenID>| #[trigger]
            comes_from(done, pair, new_id, w, source) implies lookup(after, w) == lookup(
            words,
            source,
        ) by {
            lemma_sources(order, done, k, source);
            if w == new_word {
                lemma_merge_injective(source, word, pair, new_id);
            } else {
                assert(source != word);
                assert(comes_from(earlier, pair, new_id, w, source));
                lemma_merge_shrinks(source, pair, new_id);
                assert(w != word);
            }
        }
        assert forall|w: Seq<TokenID>|
            !done.contains(w) && !(exists|source: Seq<TokenID>| #[trigger]
                comes_from(done, pair, new_id, w, source)) implies #[trigger] lookup(after, w)
            == lookup(words, w) by {
            assert(done.contains(word));
            if w == new_word {
                assert(comes_from(done, pair, new_id, w, word));
            }
            assert forall|source: Seq<TokenID>| comes_from(
                earlier,
                pair,
                new_id,
                w,
                source,
            ) implies false by {
                assert(comes_from(done, pair, new_id, w, source));
            }
            assert(lookup(before, w) == lookup(words, w));
        }
    }
}

/// What is in a part of an order is in the order.
proof fn lemma_sources(
    order: Seq<Seq<TokenID>>,
    part: Seq<Seq<TokenID>>,
    k: int,
    word: Seq<TokenID>,
)
    requires
        0 <= k <= order.len(),
        part == order.take(k),
        part.contains(word),
    ensures
        order.contains(word),
{
    let j = part.index_of(word);
    assert(order[j] == word);
}

/// Replacing the words one after the other, in any order, gives the same words
/// as merging the pair in all of them, where the new token is fresh.
proof fn lemma_replaced_all(
    words: Counted,
    model: Counted,
    order: Seq<Seq<TokenID>>,
    pair: Pair,
    new_id: TokenID,
)
    requires
        same_words(words, model),
        is_fresh(words, new_id),
        visits(words, pair, order),
    ensures
        same_words(
            replaced_all(words, order, pair, new_id),
            merged_words(model, pair, new_id),
        ),
{
    lemma_replaced_some(words, order, pair, new_id, order.len() as int);
    assert(order.take(order.len() as int) == order);
    let after = replaced_all(words, order, pair, new_id);
    let all = merged_words(model, pair, new_id);
    assert forall|i: int| 0 <= i < model.len() implies !(#[trigger] model[i]).0.contains(
        new_id,
    ) by {
        lemma_position(model, i);
        assert(lookup(words, model[i].0) == lookup(model, model[i].0));
        assert(has_key(words, model[i].0));
    }
    assert forall|i: int, j: int| 0 <= i < j < all.len() implies (#[trigger] all[i]).0 != (
    #[trigger] all[j]).0 by {
        assert(model[i].0 != model[j].0);
        if all[i].0 == all[j].0 {
            lemma_merge_injective(model[i].0, model[j].0, pair, new_id);
        }
    }
    assert forall|w: Seq<TokenID>| #[trigger] lookup(after, w) == lookup(all, w) by {
        if has_key(all, w) {
            let i = position(all, w);
            assert(all[i].0 == w);
            lemma_position(all, i);
            let source = model[i].0;
            assert(!model[i].0.contains(new_id));
            lemma_position(model, i);
            assert(lookup(words, source) == lookup(model, source));
            assert(has_key(words, source));
            if occurrences(source, pair) > 0 {
                assert(order.contains(source));
                assert(comes_from(order, pair, new_id, w, source));
            } else {
                lemma_merge_absent(source, pair, new_id);
                assert(w == source);
                assert(!order.contains(w));
                assert forall|other: Seq<TokenID>| comes_from(
                    order,
                    pair,
                    new_id,
                    w,
                    other,
                ) implies false by {
                    lemma_merge_shrinks(other, pair, new_id);
                }
            }
        } else if !order.contains(w) {
            assert forall|other: Seq<TokenID>| comes_from(
                order,
                pair,
                new_id,
                w,
                other,
            ) implies false by {
                assert(has_key(words, other));
                assert(lookup(words, other) == lookup(model, other));
                let i = position(model, other);
                assert(model[i].0 == other);
                assert(all[i].0 == w);
            }
            if has_key(words, w) {
                assert(occurrences(w, pair) == 0);
                lemma_merge_absent(w, pair, new_id);
                assert(lookup(words, w) == lookup(model, w));
                let i = position(model, w);
                assert(model[i].0 == w);
                assert(all[i].0 == w);
            }
        }
    }
}

/// The words of the greedy learner after `k` steps.
spec fn greedy_words(words: Counted, pairs: Seq<Pair>, k: int) -> Counted
    decreases k,
{
    if k <= 0 {
        words
    } else {
        merged_words(greedy_words(words, pairs, k - 1), pairs[k - 1], merge_id(k - 1))
    }
}

/// The rule at each position makes the next token, out of tokens that stand for
/// bytes or were made by earlier rules.
pub open spec fn well_numbered(rules: Seq<(Pair, TokenID)>) -> bool {
    forall|j: int|
        #![trigger rules[j]]
        0 <= j < rules.len() ==> {
            &&& rules[j].1 == BYTE_TOKENS + j
            &&& rules[j].0.0 < BYTE_TOKENS + j
            &&& rules[j].0.1 < BYTE_TOKENS + j
        }
}

/// The rules of the first `k` steps as a plain list.
pub open spec fn rule_list(pairs: Seq<Pair>, k: int) -> Seq<(Pair, TokenID)> {
    Seq::new(k as nat, |j: int| (pairs[j], merge_id(j)))
}

/// After `k` steps: the words are those of the greedy learner, made of the
/// tokens so far; the rules are listed in order, each pair made of earlier
/// tokens; and no pair that was merged occurs any more.
spec fn run_state(
    words: Counted,
    pairs: Seq<Pair>,
    orders: Seq<Seq<Seq<TokenID>>>,
    k: int,
) -> bool {
    let model = greedy_words(words, pairs, k);
    &&& same_words(words_after(words, pairs, orders, k), model)
    &&& positive(model)
    &&& tokens_below(model, BYTE_TOKENS + k)
    &&& rules_after(pairs, k) == rule_list(pairs, k)
    &&& forall|j: int|
        0 <= j < k ==> (#[trigger] pairs[j]).0 < BYTE_TOKENS + j && pairs[j].1 < BYTE_TOKENS + j
    &&& forall|j: int| 0 <= j < k ==> pair_weight(model, #[trigger] pairs[j]) == 0
}

/// One more step of a run.
proof fn lemma_run_step(
    words: Counted,
    pairs: Seq<Pair>,
    orders: Seq<Seq<Seq<TokenID>>>,
    k: int,
)
    requires
        0 <= k < pairs.len(),
        pairs.len() == orders.len(),
        k < MAX_MERGES,
        step_valid(words, pairs, orders, k),
        run_state(words, pairs, orders, k),
    ensures
        run_state(words, pairs, orders, k + 1),
        best_pair(greedy_words(words, pairs, k)) == Some(pairs[k]),
{
    let current = words_after(words, pairs, orders, k);
    let model = greedy_words(words, pairs, k);
    let pair = pairs[k];
    let id = merge_id(k);
    let next = merged_words(model, pair, id);
    assert(next == greedy_words(words, pairs, k + 1));
    assert(id == BYTE_TOKENS + k);
    // The pair is the best of the model as well, and occurs in one of its words.
    assert forall|p: Pair| pair_weight(current, p) == pair_weight(model, p) by {
        lemma_total_same(current, model, |word: Seq<TokenID>| occurrences(word, p));
    }
    assert(is_best(model, pair)) by {
        assert(pair_weight(current, pair) == pair_weight(model, pair));
        assert forall|p: Pair|
            #![trigger pair_weight(model, p)]
            pair_weight(model, p) > 0 && p != pair implies rank_below(
            (pair_weight(model, p), p),
            (pair_weight(model, pair), pair),
        ) by {
            assert(pair_weight(current, p) == pair_weight(model, p));
        }
    }
    lemma_best_unique(model, pair, choose|p: Pair| is_best(model, p));
    lemma_pair_weight(model, pair);
    let i = choose|i: int| 0 <= i < model.len() && occurrences((#[trigger] model[i]).0, pair) > 0;
    lemma_occurrences(model[i].0, pair);
    let j = choose|j: int| 0 <= j < model[i].0.len() - 1 && pair_at(model[i].0, j) == pair;
    assert(model[i].0[j] < BYTE_TOKENS + k && model[i].0[j + 1] < BYTE_TOKENS + k);
    assert(pair.0 < BYTE_TOKENS + k && pair.1 < BYTE_TOKENS + k);
    // The new token is fresh.
    assert forall|i: int| 0 <= i < model.len() implies !(#[trigger] model[i]).0.contains(id) by {
        if model[i].0.contains(id) {
            let j = model[i].0.index_of(id);
            assert(model[i].0[j] < BYTE_TOKENS + k);
        }
    }
    assert(is_fresh(current, id)) by {
        assert forall|word: Seq<TokenID>| #[trigger] has_key(current, word) implies !word.contains(
            id,
        ) by {
            assert(lookup(current, word) == lookup(model, word));
            let i = position(model, word);
            assert(model[i].0 == word);
        }
    }
    lemma_replaced_all(current, model, orders[k], pair, id);
    assert(positive(next)) by {
        assert forall|i: int| 0 <= i < next.len() implies (#[trigger] next[i]).1 > 0 by {
            assert(model[i].1 > 0);
        }
    }
    assert(tokens_below(next, BYTE_TOKENS + k + 1)) by {
        assert forall|i: int, j: int|
            0 <= i < next.len() && 0 <= j < next[i].0.len() implies #[trigger] next[i].0[j]
            < BYTE_TOKENS + k + 1 by {
            let word = model[i].0;
            lemma_merge_tokens(word, pair, id);
            let token = merged(word, pair, id)[j];
            if token != id {
                let h = word.index_of(token);
                assert(model[i].0[h] < BYTE_TOKENS + k);
            }
        }
    }
    // Merged pairs stay away.
    assert forall|j: int| 0 <= j < k + 1 implies pair_weight(next, #[trigger] pairs[j]) == 0 by {
        let p = pairs[j];
        lemma_pair_weight(next, p);
        lemma_pair_weight(model, p);
        if pair_weight(next, p) > 0 {
            let i = choose|i: int|
                0 <= i < next.len() && occurrences((#[trigger] next[i]).0, p) > 0;
            let word = model[i].0;
            assert(!model[i].0.contains(id));
            if j == k {
                law_merged_pair_is_gone(word, pair, id);
            } else {
                lemma_occurrences(next[i].0, p);
                let h = choose|h: int| 0 <= h < next[i].0.len() - 1 && pair_at(next[i].0, h) == p;
                lemma_merge_adjacent(word, pair, id, h);
                assert(occurrences(model[i].0, p) > 0);
            }
        }
    }
    // So the rule is a new one.
    assert(!has_key(rules_after(pairs, k), pair)) by {
        if has_key(rules_after(pairs, k), pair) {
            let j = position(rules_after(pairs, k), pair);
            assert(rule_list(pairs, k)[j].0 == pair);
            assert(pairs[j] == pair);
            assert(pair_weight(model, pairs[j]) == 0);
        }
    }
    assert(rules_after(pairs, k + 1) == rule_list(pairs, k + 1));
}

/// The rules that the greedy learner adds from step `k` on are those of the run.
proof fn lemma_run_rest(
    words: Counted,
    merges: nat,
    pairs: Seq<Pair>,
    orders: Seq<Seq<Seq<TokenID>>>,
    k: int,
)
    requires
        is_run(words, merges, pairs, orders),
        merges <= MAX_MERGES,
        0 <= k <= pairs.len(),
        run_state(words, pairs, orders, k),
    ensures
        run_state(words, pairs, orders, pairs.len() as int),
        greedy_rules(greedy_words(words, pairs, k), k as nat, merges) == rule_list(
            pairs,
            pairs.len() as int,
        ).skip(k),
    decreases pairs.len() - k,
{
    let model = greedy_words(words, pairs, k);
    let all = rule_list(pairs, pairs.len() as int);
    if k < pairs.len() {
        assert(step_valid(words, pairs, orders, k));
        lemma_run_step(words, pairs, orders, k);
        lemma_run_rest(words, merges, pairs, orders, k + 1);
        assert(all.skip(k) == seq![all[k]] + all.skip(k + 1));
    } else {
        assert(all.skip(k) == Seq::<(Pair, TokenID)>::empty());
        if k < merges {
            let current = words_after(words, pairs, orders, k);
            assert forall|p: Pair| !is_best(model, p) by {
                lemma_total_same(current, model, |word: Seq<TokenID>| occurrences(word, p));
                assert(pair_weight(current, p) == 0);
            }
            assert(best_pair(model) is None);
        }
    }
}

/// Any sum over the words of `b` is `n` times as large as that over those of `a`.
spec fn scaled_totals(a: Counted, b: Counted, n: nat) -> bool {
    forall|measure: spec_fn(Seq<TokenID>) -> nat| #[trigger]
        total(b, measure) == n * total(a, measure)
}

/// A sum over merged words is one over the words.
proof fn lemma_merged_total(
    words: Counted,
    pair: Pair,
    new_id: TokenID,
    measure: spec_fn(Seq<TokenID>) -> nat,
)
    ensures
        total(merged_words(words, pair, new_id), measure) == total(
            words,
            |word: Seq<TokenID>| measure(merged(word, pair, new_id)),
        ),
    decreases words.len(),
{
    if words.len() > 0 {
        let after = merged_words(words, pair, new_id);
        assert(after.drop_last() == merged_words(words.drop_last(), pair, new_id));
        lemma_merged_total(words.drop_last(), pair, new_id, measure);
    }
}

/// Pairs rank the same where all weights are `n` times as large.
proof fn lemma_rank_scaled(x: nat, p: Pair, y: nat, q: Pair, n: nat)
    requires
        n >= 1,
    ensures
        rank_below((n * x, p), (n * y, q)) == rank_below((x, p), (y, q)),
        n * x > 0 <==> x > 0,
{
    assert(n * x < n * y <==> x < y) by (nonlinear_arith)
        requires
            n >= 1,
    ;
    assert(n * x == n * y <==> x == y) by (nonlinear_arith)
        requires
            n >= 1,
    ;
    assert(n * x > 0 <==> x > 0) by (nonlinear_arith)
        requires
            n >= 1,
    ;
}

/// The best pair is the same where all weights are `n` times as large.
proof fn lemma_best_scaled(a: Counted, b: Counted, n: nat, pair: Pair)
    requires
        n >= 1,
        forall|p: Pair| #[trigger] pair_weight(b, p) == n * pair_weight(a, p),
    ensures
        is_best(a, pair) == is_best(b, pair),
{
    assert forall|p: Pair| true implies rank_below(
        (pair_weight(b, p), p),
        (pair_weight(b, pair), pair),
    ) == rank_below((pair_weight(a, p), p), (#[trigger] pair_weight(a, pair), pair)) && (
    #[trigger] pair_weight(b, p) > 0 <==> pair_weight(a, p) > 0) by {
        lemma_rank_scaled(pair_weight(a, p), p, pair_weight(a, pair), pair, n);
    }
    if is_best(b, pair) {
        assert(pair_weight(a, pair) > 0);
        assert forall|p: Pair|
            #![trigger pair_weight(a, p)]
            pair_weight(a, p) > 0 && p != pair implies rank_below(
            (pair_weight(a, p), p),
            (pair_weight(a, pair), pair),
        ) by {
            assert(pair_weight(b, p) > 0);
        }
    }
    if is_best(a, pair) {
        assert(pair_weight(b, pair) > 0);
        assert forall|p: Pair|
            #![trigger pair_weight(b, p)]
            pair_weight(b, p) > 0 && p != pair implies rank_below(
            (pair_weight(b, p), p),
            (pair_weight(b, pair), pair),
        ) by {
            assert(pair_weight(a, p) > 0);
        }
    }
}

/// The greedy learner looks only at how sums over the words compare.
proof fn lemma_greedy_scaled(a: Counted, b: Counted, n: nat, step: nat, merges: nat)
    requires
        n >= 1,
        scaled_totals(a, b, n),
    ensures
        greedy_rules(a, step, merges) == greedy_rules(b, step, merges),
    decreases merges - step,
{
    if step < merges {
        assert forall|pair: Pair| #[trigger] pair_weight(b, pair) == n * pair_weight(a, pair) by {
            let measure = |word: Seq<TokenID>| occurrences(word, pair);
            assert(total(b, measure) == n * total(a, measure));
        }
        assert forall|pair: Pair| #[trigger] is_best(a, pair) == is_best(b, pair) by {
            lemma_best_scaled(a, b, n, pair);
        }
        if exists|pair: Pair| is_best(a, pair) {
            let pair = choose|pair: Pair| is_best(a, pair);
            assert(is_best(b, pair));
            let other = choose|pair: Pair| is_best(b, pair);
            lemma_best_unique(b, pair, other);
            assert(best_pair(a) == Some(pair) && best_pair(b) == Some(pair));
            let id = merge_id(step as int);
            assert forall|measure: spec_fn(Seq<TokenID>) -> nat| #[trigger]
                total(merged_words(b, pair, id), measure) == n * total(
                    merged_words(a, pair, id),
                    measure,
                ) by {
                lemma_merged_total(a, pair, id, measure);
                lemma_merged_total(b, pair, id, measure);
                let inner = |word: Seq<TokenID>| measure(merged(word, pair, id));
                assert(total(b, inner) == n * total(a, inner));
            }
            lemma_greedy_scaled(
                merged_words(a, pair, id),
                merged_words(b, pair, id),
                n,
                step + 1,
                merges,
            );
        } else {
            assert forall|pair: Pair| !is_best(b, pair) by {
                assert(is_best(a, pair) == is_best(b, pair));
            }
        }
    }
}

/// What is learned does not depend on the order of the words.
pub proof fn law_rules_ignore_word_order(a: Counted, b: Counted, merges: nat)
    requires
        same_words(a, b),
    ensures
        greedy_rules(a, 0, merges) == greedy_rules(b, 0, merges),
{
    assert forall|measure: spec_fn(Seq<TokenID>) -> nat| #[trigger]
        total(b, measure) == 1 * total(a, measure) by {
        lemma_total_same(a, b, measure);
    }
    lemma_greedy_scaled(a, b, 1, 0, merges);
}

/// A sum over words with counts that are all `n` times as large.
proof fn lemma_total_scaled(
    a: Counted,
    b: Counted,
    n: nat,
    measure: spec_fn(Seq<TokenID>) -> nat,
)
    requires
        a.len() == b.len(),
        forall|i: int|
            0 <= i < a.len() ==> (#[trigger] b[i]).0 == a[i].0 && b[i].1 == n * a[i].1,
    ensures
        total(b, measure) == n * total(a, measure),
    decreases a.len(),
{
    if a.len() == 0 {
        assert(n * 0 == 0) by (nonlinear_arith);
    } else {
        let rest_a = a.drop_last();
        let rest_b = b.drop_last();
        assert forall|i: int| 0 <= i < rest_a.len() implies (#[trigger] rest_b[i]).0
            == rest_a[i].0 && rest_b[i].1 == n * rest_a[i].1 by {
            assert(b[i].0 == a[i].0 && b[i].1 == n * a[i].1);
        }
        lemma_total_scaled(rest_a, rest_b, n, measure);
        let last = a.len() - 1;
        assert(b[last].0 == a[last].0 && b[last].1 == n * a[last].1);
        let x = total(rest_a, measure);
        let c = a[last].1 as nat;
        let m = measure(a[last].0);
        assert(n * x + (n * c) * m == n * (x + c * m)) by (nonlinear_arith);
    }
}

/// What is learned depends only on how often words occur relative to each other:
/// counts that are all `n` times as large give the same rules.
pub proof fn law_rules_ignore_scale(a: Counted, b: Counted, n: nat, merges: nat)
    requires
        n >= 1,
        a.len() == b.len(),
        forall|i: int|
            0 <= i < a.len() ==> (#[trigger] b[i]).0 == a[i].0 && b[i].1 == n * a[i].1,
    ensures
        greedy_rules(a, 0, merges) == greedy_rules(b, 0, merges),
{
    assert forall|measure: spec_fn(Seq<TokenID>) -> nat| #[trigger]
        total(b, measure) == n * total(a, measure) by {
        lemma_total_scaled(a, b, n, measure);
    }
    lemma_greedy_scaled(a, b, n, 0, merges);
}

/// Whatever the order in which it visits the words, a run over words of bytes
/// learns the rules of the greedy learner, as long as every merge has a token
/// number of its own.
pub proof fn law_run_is_greedy(
    words: Counted,
    merges: nat,
    pairs: Seq<Pair>,
    orders: Seq<Seq<Seq<TokenID>>>,
)
    requires
        unique_keys(words),
        positive(words),
        tokens_below(words, BYTE_TOKENS as int),
        merges <= MAX_MERGES,
        is_run(words, merges, pairs, orders),
    ensures
        rules_after(pairs, pairs.len() as int) == greedy_rules(words, 0, merges),
        well_numbered(rules_after(pairs, pairs.len() as int)),
{
    assert(run_state(words, pairs, orders, 0)) by {
        assert(rules_after(pairs, 0) == rule_list(pairs, 0));
    }
    lemma_run_rest(words, merges, pairs, orders, 0);
    let all = rule_list(pairs, pairs.len() as int);
    assert(all.skip(0) == all);
}

/// A run of `k` steps does not depend on later ones.
proof fn lemma_run_prefix(
    words: Counted,
    pairs: Seq<Pair>,
    orders: Seq<Seq<Seq<TokenID>>>,
    pair: Pair,
    order: Seq<Seq<TokenID>>,
    k: int,
)
    requires
        pairs.len() == orders.len(),
        0 <= k <= pairs.len(),
    ensures
        words_after(words, pairs.push(pair), orders.push(order), k) == words_after(
            words,
            pairs,
            orders,
            k,
        ),
        rules_after(pairs.push(pair), k) == rules_after(pairs, k),
    decreases k,
{
    if k > 0 {
        lemma_run_prefix(words, pairs, orders, pair, order, k - 1);
    }
}

/// The index of one word more.
proof fn lemma_index_push(words: Counted, i: int)
    requires
        words_valid(words),
        0 <= i < words.len(),
    ensures
        forall|p: Pair| #[trigger]
            pair_weight(words.take(i + 1), p) == pair_weight(words.take(i), p) + words[i].1
                * occurrences(words[i].0, p),
        forall|p: Pair| #[trigger] pair_weight(words.take(i + 1), p) <= usize::MAX,
        forall|w: Seq<TokenID>| #[trigger]
            has_key(words.take(i + 1), w) <==> w == words[i].0 || has_key(words.take(i), w),
{
    let longer = words.take(i + 1);
    let shorter = words.take(i);
    assert(longer.drop_last() == shorter);
    assert forall|p: Pair| #[trigger] pair_weight(longer, p) == pair_weight(shorter, p) + words[i].1
        * occurrences(words[i].0, p) && pair_weight(longer, p) <= usize::MAX by {
        let occ = |word: Seq<TokenID>| occurrences(word, p);
        assert(total(longer, occ) == total(shorter, occ) + longer.last().1 * occ(longer.last().0));
        lemma_total_prefix(words, i + 1, occ);
        lemma_pair_weight(words, p);
        assert(pair_weight(words, p) == total(words, occ));
        assert(pair_weight(longer, p) == total(longer, occ));
        assert(pair_weight(shorter, p) == total(shorter, occ));
    }
    assert forall|w: Seq<TokenID>| #[trigger]
        has_key(longer, w) <==> w == words[i].0 || has_key(shorter, w) by {
        if has_key(shorter, w) {
            let j = position(shorter, w);
            assert(shorter[j].0 == w);
            assert(longer[j].0 == w);
        }
        if w == words[i].0 {
            assert(longer[i].0 == w);
        }
        if has_key(longer, w) {
            let j = position(longer, w);
            assert(longer[j].0 == w);
            if j < i {
                assert(shorter[j].0 == w);
            }
        }
    }
}

/// Learns at most `merges` rules from the words.
pub(crate) fn learn_rules(
    words: IndexMap<Vec<TokenID>, usize>,
    merges: usize,
) -> (rules: IndexMap<(TokenID, TokenID), TokenID>)
    requires
        words_valid(word_entries(words)),
        merges + BYTE_TOKENS <= usize::MAX,
    ensures
        exists|pairs: Seq<Pair>, orders: Seq<Seq<Seq<TokenID>>>| #[trigger]
            is_run(word_entries(words), merges as nat, pairs, orders) && rule_entries(rules)
                == rules_after(pairs, pairs.len() as int),
{
    let ghost all = word_entries(words);
    let mut words = words;
    let mut counts = counts_new();
    let mut places = index_new();
    let mut i: usize = 0;
    proof {
        let none = all.take(0);
        assert(none == Seq::<(Seq<TokenID>, usize)>::empty());
        assert forall|p: Pair| #[trigger] lookup_or(count_entries(counts), p, 0) == pair_weight(
            none,
            p,
        ) by {}
    }
    loop
        invariant_except_break
            i <= all.len(),
        invariant
            all == word_entries(words),
            words_valid(all),
            counts_match(all.take(i as int), count_entries(counts)),
            places_match(all.take(i as int), index_entries(places)),
        ensures
            i == all.len(),
        decreases all.len() - i,
    {
        let next = words_get_index(&words, i);
        if next.is_none() {
            break;
        }
        let (word, count) = next.unwrap();
        let ghost counted = count_entries(counts);
        proof {
            assert(all[i as int] == (word@, count));
            lemma_index_push(all, i as int);
            assert(all[i as int].1 > 0);
            assert forall|p: Pair| lookup_or(counted, p, 0) + count * #[trigger] occurrences(
                word@,
                p,
            ) <= usize::MAX by {
                assert(lookup_or(counted, p, 0) == pair_weight(all.take(i as int), p));
                assert(pair_weight(all.take(i + 1), p) <= usize::MAX);
            }
        }
        record_word(&mut counts, &mut places, word, count);
        i += 1;
        proof {
            assert forall|p: Pair| #[trigger] lookup_or(count_entries(counts), p, 0)
                == pair_weight(all.take(i as int), p) by {
                assert(lookup_or(counted, p, 0) == pair_weight(all.take(i - 1), p));
            }
        }
    }
    assert(all.take(i as int) == all);
    let mut rules = rules_new();
    let ghost mut pairs: Seq<Pair> = Seq::empty();
    let ghost mut orders: Seq<Seq<Seq<TokenID>>> = Seq::empty();
    let mut step: usize = 0;
    while step < merges
        invariant_except_break
            pairs.len() == step,
        invariant
            step <= merges,
            merges + BYTE_TOKENS <= usize::MAX,
            pairs.len() == orders.len(),
            word_entries(words) == words_after(all, pairs, orders, pairs.len() as int),
            words_valid(word_entries(words)),
            counts_match(word_entries(words), count_entries(counts)),
            places_match(word_entries(words), index_entries(places)),
            rule_entries(rules) == rules_after(pairs, pairs.len() as int),
            forall|k: int| 0 <= k < pairs.len() ==> #[trigger] step_valid(all, pairs, orders, k),
        ensures
            is_run(all, merges as nat, pairs, orders),
        decreases merges - step,
    {
        let ghost before = word_entries(words);
        let ghost counted = count_entries(counts);
        let best = best_counted(&counts);
        if best.is_none() {
            proof {
                assert forall|p: Pair| pair_weight(before, p) == 0 by {
                    assert(lookup_or(counted, p, 0) == pair_weight(before, p));
                    assert(!has_key(counted, p));
                }
            }
            break;
        }
        let pair = best.unwrap();
        #[verifier::truncate]
        let new_id = (step + BYTE_TOKENS) as TokenID;
        proof {
            assert(is_best(before, pair)) by {
                assert(lookup_or(counted, pair, 0) == pair_weight(before, pair));
                assert forall|p: Pair|
                    #![trigger pair_weight(before, p)]
                    pair_weight(before, p) > 0 && p != pair implies rank_below(
                    (pair_weight(before, p), p),
                    (pair_weight(before, pair), pair),
                ) by {
                    assert(lookup_or(counted, p, 0) == pair_weight(before, p));
                    assert(has_key(counted, p));
                }
            }
        }
        rules_insert(&mut rules, pair, new_id);
        merge_everywhere(&mut words, &mut counts, &mut places, pair, new_id);
        proof {
            let order = choose|order: Seq<Seq<TokenID>>|
                visits(before, pair, order) && word_entries(words) == #[trigger] replaced_all(
                    before,
                    order,
                    pair,
                    new_id,
                );
            let n = pairs.len() as int;
            assert(new_id == merge_id(n));
            let pairs2 = pairs.push(pair);
            let orders2 = orders.push(order);
            lemma_run_prefix(all, pairs, orders, pair, order, n);
            assert forall|k: int| 0 <= k < pairs2.len() implies #[trigger] step_valid(
                all,
                pairs2,
                orders2,
                k,
            ) by {
                lemma_run_prefix(all, pairs, orders, pair, order, k);
                if k < n {
                    assert(step_valid(all, pairs, orders, k));
                }
            }
            pairs = pairs2;
            orders = orders2;
        }
        step += 1;
    }
    rules
}

// ---------------------------------------------------------------------------
// What is merged
// ---------------------------------------------------------------------------

/// The words as the first `k` rules leave them, each with its count.
pub open spec fn words_so_far(words: Counted, rules: Seq<(Pair, TokenID)>, k: int) -> Counted {
    words.map_values(|entry: (Seq<TokenID>, usize)| (apply_rules(entry.0, rules, k), entry.1))
}

/// Where a pair occurs, some pair is the best.
proof fn lemma_some_best(words: Counted, pair: Pair)
    requires
        positive(words),
        pair_weight(words, pair) > 0,
    ensures
        best_pair(words) is Some,
    decreases
            corpus_size(words) - pair_weight(words, pair),
            65536 - pair.0,
            65536 - pair.1,
{
    if is_best(words, pair) {
        assert(best_pair(words) is Some);
    } else {
        let p = choose|p: Pair|
            #![trigger pair_weight(words, p)]
            pair_weight(words, p) > 0 && p != pair && !rank_below(
                (pair_weight(words, p), p),
                (pair_weight(words, pair), pair),
            );
        lemma_pair_weight(words, pair);
        lemma_pair_weight(words, p);
        lemma_some_best(words, p);
    }
}

/// The learner goes on from the words that its rules so far left.
proof fn lemma_greedy_rest(words: Counted, merges: nat, k: int)
    requires
        0 <= k <= greedy_rules(words, 0, merges).len(),
    ensures
        k <= merges,
        greedy_rules(words_so_far(words, greedy_rules(words, 0, merges), k), k as nat, merges)
            == greedy_rules(words, 0, merges).skip(k),
    decreases k,
{
    let rules = greedy_rules(words, 0, merges);
    let now = words_so_far(words, rules, k);
    if k == 0 {
        assert(now == words);
        assert(rules.skip(0) == rules);
    } else {
        let before = words_so_far(words, rules, k - 1);
        lemma_greedy_rest(words, merges, k - 1);
        let rest = rules.skip(k - 1);
        assert(rest[0] == rules[k - 1]);
        assert(k - 1 < merges);
        let pair = best_pair(before)->0;
        let id = merge_id(k - 1);
        let tail = greedy_rules(merged_words(before, pair, id), k as nat, merges);
        assert(rest == seq![(pair, id)] + tail);
        assert(rest.skip(1) == tail);
        assert(rest.skip(1) == rules.skip(k));
        assert(merged_words(before, pair, id) == now);
    }
}

/// Of all pairs in the words as the rules before it left them, the pair that a rule
/// merges occurs most often, and of those that occur as often it is the largest. It
/// does occur. The rule's token is the next after those of bytes and earlier rules.
pub proof fn law_most_frequent_pair_is_merged(words: Counted, merges: nat, k: int)
    requires
        0 <= k < greedy_rules(words, 0, merges).len(),
    ensures
        ({
            let rules = greedy_rules(words, 0, merges);
            let now = words_so_far(words, rules, k);
            let (pair, id) = rules[k];
            &&& pair_weight(now, pair) > 0
            &&& forall|p: Pair| #[trigger] pair_weight(now, p) <= pair_weight(now, pair)
            &&& forall|p: Pair| #[trigger]
                pair_weight(now, p) == pair_weight(now, pair) ==> p.0 < pair.0 || (p.0 == pair.0
                    && p.1 <= pair.1)
            &&& k < MAX_MERGES ==> id == 256 + k
        }),
{
    let rules = greedy_rules(words, 0, merges);
    let now = words_so_far(words, rules, k);
    lemma_greedy_rest(words, merges, k);
    let rest = rules.skip(k);
    assert(rest[0] == rules[k]);
    assert(best_pair(now) == Some(rules[k].0));
    assert(is_best(now, rules[k].0));
}

/// No more rules are learned than were asked for, and fewer only where no pair of
/// tokens is left in any word.
pub proof fn law_learning_stops_where_no_pair_is_left(words: Counted, merges: nat, p: Pair)
    requires
        positive(words),
    ensures
        greedy_rules(words, 0, merges).len() <= merges,
        greedy_rules(words, 0, merges).len() < merges ==> pair_weight(
            words_so_far(
                words,
                greedy_rules(words, 0, merges),
                greedy_rules(words, 0, merges).len() as int,
            ),
            p,
        ) == 0,
{
    let rules = greedy_rules(words, 0, merges);
    let now = words_so_far(words, rules, rules.len() as int);
    lemma_greedy_rest(words, merges, rules.len() as int);
    assert(rules.skip(rules.len() as int).len() == 0);
    if rules.len() < merges && pair_weight(now, p) > 0 {
        assert forall|i: int| 0 <= i < now.len() implies (#[trigger] now[i]).1 > 0 by {
            assert(words[i].1 > 0);
        }
        lemma_some_best(now, p);
    }
}

/// Whatever the order in which it visits the words, every step of a run merges a
/// pair that occurs at least as often as every other, and the largest of those that
/// occur as often. It stops early only where no pair is left.
pub proof fn law_run_merges_most_frequent_pairs(
    words: Counted,
    merges: nat,
    pairs: Seq<Pair>,
    orders: Seq<Seq<Seq<TokenID>>>,
    k: int,
    p: Pair,
)
    requires
        is_run(words, merges, pairs, orders),
        0 <= k < pairs.len(),
    ensures
        pairs.len() <= merges,
        pairs.len() < merges ==> pair_weight(
            words_after(words, pairs, orders, pairs.len() as int),
            p,
        ) == 0,
        ({
            let now = words_after(words, pairs, orders, k);
            &&& 0 < pair_weight(now, pairs[k])
            &&& pair_weight(now, p) <= pair_weight(now, pairs[k])
            &&& pair_weight(now, p) == pair_weight(now, pairs[k]) ==> p.0 < pairs[k].0 || (p.0
                == pairs[k].0 && p.1 <= pairs[k].1)
        }),
{
    let now = words_after(words, pairs, orders, k);
    assert(step_valid(words, pairs, orders, k));
    assert(is_best(now, pairs[k]));
    assert(pair_weight(now, p) >= 0);
}

/// The rules from a step on, with a smaller limit.
proof fn lemma_fewer_merges(words: Counted, step: nat, m: nat, n: nat)
    requires
        m <= n,
    ensures
        greedy_rules(words, step, m).is_prefix_of(greedy_rules(words, step, n)),
    decreases m - step,
{
    let few = greedy_rules(words, step, m);
    let many = greedy_rules(words, step, n);
    if step >= m || best_pair(words) is None {
        assert(few == many.take(0));
    } else {
        let pair = best_pair(words)->0;
        let id = merge_id(step as int);
        let next = merged_words(words, pair, id);
        lemma_fewer_merges(next, step + 1, m, n);
        let a = greedy_rules(next, step + 1, m);
        let b = greedy_rules(next, step + 1, n);
        assert(a == b.take(a.len() as int));
        assert(few == many.take(few.len() as int));
    }
}

/// Whoever asks for more rules gets those that fewer would have been, and more behind
/// them.
pub proof fn law_more_merges_keep_the_first_rules(words: Counted, m: nat, n: nat)
    requires
        m <= n,
    ensures
        greedy_rules(words, 0, m).is_prefix_of(greedy_rules(words, 0, n)),
{
    lemma_fewer_merges(words, 0, m, n);
}

/// Tokens are numbered on from those of bytes, one by one, and from zero again where the
/// numbers have run out.
pub proof fn law_tokens_are_numbered_in_order(step: u64)
    ensures
        merge_id(step as int) == (256 + step) % 65536,
        step < MAX_MERGES ==> merge_id(step as int) == 256 + step,
{
    let id = #[verifier::truncate] ((256 + step) as u16);
    assert(id == (256 + step) % 65536) by (bit_vector)
        requires
            id == (256 + step) as u16,
    ;
    assert(merge_id(step as int) == id);
}

} // verus!

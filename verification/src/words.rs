//! Counted words, and sums over them.

use vstd::prelude::*;

use crate::ordered::{
    has_key, lemma_position, lemma_swap_drop, lookup, lookup_or, position, put, swap_drop,
    unique_keys, TokenID,
};
use crate::pairs::{lemma_occurrences, occurrences, Pair};

verus! {

/// Words, each with how often it occurs.
pub type Counted = Seq<(Seq<TokenID>, usize)>;

/// The sum over all words of a measure of the word times its count.
pub open spec fn total(words: Counted, measure: spec_fn(Seq<TokenID>) -> nat) -> nat
    decreases words.len(),
{
    if words.len() == 0 {
        0
    } else {
        total(words.drop_last(), measure) + (words.last().1 as nat) * measure(words.last().0)
    }
}

/// How many tokens the words have in all.
pub open spec fn corpus_size(words: Counted) -> nat {
    total(words, |word: Seq<TokenID>| word.len())
}

/// How often a pair occurs in the words in all.
pub open spec fn pair_weight(words: Counted, pair: Pair) -> nat {
    total(words, |word: Seq<TokenID>| occurrences(word, pair))
}

/// Every word occurs.
pub open spec fn positive(words: Counted) -> bool {
    forall|i: int| 0 <= i < words.len() ==> (#[trigger] words[i]).1 > 0
}

/// The two hold the same words with the same counts, in whatever order.
pub open spec fn same_words(a: Counted, b: Counted) -> bool {
    &&& unique_keys(a)
    &&& unique_keys(b)
    &&& forall|word: Seq<TokenID>| #[trigger] lookup(a, word) == lookup(b, word)
}

/// Replacing one entry changes the sum by the difference.
pub proof fn lemma_total_update(
    words: Counted,
    i: int,
    entry: (Seq<TokenID>, usize),
    measure: spec_fn(Seq<TokenID>) -> nat,
)
    requires
        0 <= i < words.len(),
    ensures
        total(words.update(i, entry), measure) + words[i].1 * measure(words[i].0) == total(
            words,
            measure,
        ) + entry.1 * measure(entry.0),
    decreases words.len(),
{
    let after = words.update(i, entry);
    if i == words.len() - 1 {
        assert(after.drop_last() == words.drop_last());
    } else {
        assert(after.drop_last() == words.drop_last().update(i, entry));
        lemma_total_update(words.drop_last(), i, entry, measure);
    }
}

/// What `put` does to the sum.
pub proof fn lemma_total_put(
    words: Counted,
    word: Seq<TokenID>,
    count: usize,
    measure: spec_fn(Seq<TokenID>) -> nat,
)
    ensures
        total(put(words, word, count), measure) + lookup_or(words, word, 0) * measure(word)
            == total(words, measure) + count * measure(word),
{
    if has_key(words, word) {
        let p = position(words, word);
        assert(words[p].0 == word);
        lemma_total_update(words, p, (word, count), measure);
    } else {
        assert(put(words, word, count).drop_last() == words);
        assert(0 * measure(word) == 0) by (nonlinear_arith);
    }
}

/// What `swap_drop` does to the sum.
pub proof fn lemma_total_swap_drop(
    words: Counted,
    word: Seq<TokenID>,
    measure: spec_fn(Seq<TokenID>) -> nat,
)
    ensures
        total(swap_drop(words, word), measure) + lookup_or(words, word, 0) * measure(word)
            == total(words, measure),
{
    if has_key(words, word) {
        let p = position(words, word);
        assert(words[p].0 == word);
        lemma_total_update(words, p, words.last(), measure);
        let moved = words.update(p, words.last());
        assert(moved.last() == words.last());
    } else {
        assert(0 * measure(word) == 0) by (nonlinear_arith);
    }
}

/// The sum over the first words is part of the sum.
pub proof fn lemma_total_prefix(words: Counted, i: int, measure: spec_fn(Seq<TokenID>) -> nat)
    requires
        0 <= i <= words.len(),
    ensures
        total(words.take(i), measure) <= total(words, measure),
    decreases words.len(),
{
    if i == words.len() {
        assert(words.take(i) == words);
    } else {
        assert(words.drop_last().take(i) == words.take(i));
        lemma_total_prefix(words.drop_last(), i, measure);
        let (word, count) = words.last();
        assert(count * measure(word) >= 0) by (nonlinear_arith)
            requires
                count >= 0,
                measure(word) >= 0,
        ;
    }
}

/// Each word's share is part of the sum.
pub proof fn lemma_total_share(words: Counted, i: int, measure: spec_fn(Seq<TokenID>) -> nat)
    requires
        0 <= i < words.len(),
    ensures
        words[i].1 * measure(words[i].0) <= total(words, measure),
    decreases words.len(),
{
    if i < words.len() - 1 {
        lemma_total_share(words.drop_last(), i, measure);
        assert(words.last().1 * measure(words.last().0) >= 0) by (nonlinear_arith)
            requires
                words.last().1 >= 0,
                measure(words.last().0) >= 0,
        ;
    }
}

/// A smaller measure has a smaller sum.
pub proof fn lemma_total_monotone(
    words: Counted,
    small: spec_fn(Seq<TokenID>) -> nat,
    large: spec_fn(Seq<TokenID>) -> nat,
)
    requires
        forall|word: Seq<TokenID>| #[trigger] small(word) <= large(word),
    ensures
        total(words, small) <= total(words, large),
    decreases words.len(),
{
    if words.len() > 0 {
        lemma_total_monotone(words.drop_last(), small, large);
        let (word, count) = words.last();
        assert(count * small(word) <= count * large(word)) by (nonlinear_arith)
            requires
                small(word) <= large(word),
        ;
    }
}

/// The sum does not depend on the order of the words.
pub proof fn lemma_total_same(a: Counted, b: Counted, measure: spec_fn(Seq<TokenID>) -> nat)
    requires
        same_words(a, b),
    ensures
        total(a, measure) == total(b, measure),
    decreases a.len(),
{
    if a.len() == 0 {
        if b.len() > 0 {
            lemma_position(b, 0);
            assert(lookup(a, b[0].0) == lookup(b, b[0].0));
        }
    } else {
        let (word, count) = a.last();
        let rest = a.drop_last();
        lemma_position(a, a.len() - 1);
        assert(lookup(a, word) == Some(count));
        assert(lookup(b, word) == Some(count));
        lemma_swap_drop(a, word);
        lemma_swap_drop(b, word);
        assert(swap_drop(a, word) == rest);
        assert(same_words(rest, swap_drop(b, word)));
        lemma_total_same(rest, swap_drop(b, word), measure);
        lemma_total_swap_drop(b, word, measure);
    }
}

/// A pair occurs no more often than there are tokens, and occurs at all if and
/// only if it occurs in some word.
pub proof fn lemma_pair_weight(words: Counted, pair: Pair)
    requires
        positive(words),
    ensures
        pair_weight(words, pair) <= corpus_size(words),
        pair_weight(words, pair) > 0 <==> exists|i: int|
            0 <= i < words.len() && occurrences((#[trigger] words[i]).0, pair) > 0,
{
    let small = |word: Seq<TokenID>| occurrences(word, pair);
    let large = |word: Seq<TokenID>| word.len();
    assert forall|word: Seq<TokenID>| #[trigger] small(word) <= large(word) by {
        lemma_occurrences(word, pair);
    }
    lemma_total_monotone(words, small, large);
    lemma_pair_weight_positive(words, pair);
}

proof fn lemma_pair_weight_positive(words: Counted, pair: Pair)
    requires
        positive(words),
    ensures
        pair_weight(words, pair) > 0 <==> exists|i: int|
            0 <= i < words.len() && occurrences((#[trigger] words[i]).0, pair) > 0,
    decreases words.len(),
{
    if words.len() > 0 {
        let rest = words.drop_last();
        assert(positive(rest)) by {
            assert forall|i: int| 0 <= i < rest.len() implies (#[trigger] rest[i]).1 > 0 by {
                assert(words[i].1 > 0);
            }
        }
        lemma_pair_weight_positive(rest, pair);
        let (word, count) = words.last();
        let here = occurrences(word, pair);
        assert(words[words.len() - 1].1 > 0);
        assert(count * here > 0 <==> here > 0) by (nonlinear_arith)
            requires
                count > 0,
        ;
        assert(count * here >= 0) by (nonlinear_arith)
            requires
                count > 0,
                here >= 0,
        ;
        assert(pair_weight(words, pair) == pair_weight(rest, pair) + count * here);
        if exists|i: int| 0 <= i < rest.len() && occurrences((#[trigger] rest[i]).0, pair) > 0 {
            let i = choose|i: int|
                0 <= i < rest.len() && occurrences((#[trigger] rest[i]).0, pair) > 0;
            assert(occurrences(words[i].0, pair) > 0);
        }
        if exists|i: int| 0 <= i < words.len() && occurrences((#[trigger] words[i]).0, pair) > 0 {
            let i = choose|i: int|
                0 <= i < words.len() && occurrences((#[trigger] words[i]).0, pair) > 0;
            if i < rest.len() {
                assert(occurrences(rest[i].0, pair) > 0);
            }
        }
    }
}

/// A word that occurs `count` times adds that many times the occurrences of a pair
/// in it to the weight of the pair.
pub proof fn law_pair_weight_adds_up(
    words: Counted,
    word: Seq<TokenID>,
    count: usize,
    pair: Pair,
)
    ensures
        pair_weight(words.push((word, count)), pair) == pair_weight(words, pair) + count
            * occurrences(word, pair),
        pair_weight(Seq::empty(), pair) == 0,
{
    let more = words.push((word, count));
    assert(more.drop_last() == words);
    assert(more.last() == (word, count));
}

} // verus!

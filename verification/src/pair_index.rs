//! Where each pair of tokens occurs, and how often, kept up to date while words
//! come and go.

use indexmap::{IndexMap, IndexSet};
use vstd::prelude::*;

use crate::ordered::{
    count_entries, counts_get_index, counts_new, counts_slot, counts_swap_remove, has_key,
    include_item, index_entries, index_get_mut, index_slot, lemma_include_item, lemma_position,
    lemma_put, lemma_swap_drop, lemma_swap_out, lookup, lookup_or, put, set_insert, set_items,
    set_new, set_swap_remove, swap_drop, swap_out, unique_keys, TokenID,
};
use crate::pairs::{count_pairs, lemma_occurrences, lemma_tally_pairs, occurrences, Pair};

verus! {

/// Pairs, each with the words in which it occurs.
pub type Places = Seq<(Pair, Seq<Seq<TokenID>>)>;

/// A word is listed under a pair.
pub open spec fn listed(places: Places, pair: Pair, word: Seq<TokenID>) -> bool {
    lookup(places, pair) matches Some(words) && words.contains(word)
}

/// No pair is listed twice, and no word twice under one pair.
pub open spec fn places_valid(places: Places) -> bool {
    &&& unique_keys(places)
    &&& forall|i: int| 0 <= i < places.len() ==> (#[trigger] places[i]).1.no_duplicates()
}

/// No pair is counted twice, and none with a count of zero.
pub open spec fn counts_valid(counts: Seq<(Pair, usize)>) -> bool {
    &&& unique_keys(counts)
    &&& forall|pair: Pair| #[trigger] has_key(counts, pair) <==> lookup_or(counts, pair, 0) > 0
}

/// The first rank is lower: by count, then by pair.
pub open spec fn rank_below(a: (nat, Pair), b: (nat, Pair)) -> bool {
    ||| a.0 < b.0
    ||| a.0 == b.0 && (a.1.0 < b.1.0 || (a.1.0 == b.1.0 && a.1.1 < b.1.1))
}

/// Putting words under a pair replaces the list of that pair alone.
proof fn lemma_put_places(places: Places, pair: Pair, words: Seq<Seq<TokenID>>)
    requires
        places_valid(places),
        words.no_duplicates(),
    ensures
        places_valid(put(places, pair, words)),
        forall|p: Pair, w: Seq<TokenID>| #[trigger]
            listed(put(places, pair, words), p, w) <==> if p == pair {
                words.contains(w)
            } else {
                listed(places, p, w)
            },
{
    lemma_put(places, pair, words);
    let after = put(places, pair, words);
    assert forall|i: int| 0 <= i < after.len() implies (#[trigger] after[i]).1.no_duplicates() by {
        lemma_position(after, i);
        if after[i].0 != pair {
            assert(lookup(after, after[i].0) == lookup(places, after[i].0));
            let j = crate::ordered::position(places, after[i].0);
            assert(places[j].1.no_duplicates());
        }
    }
    assert forall|p: Pair, w: Seq<TokenID>| #[trigger] listed(after, p, w) <==> if p == pair {
        words.contains(w)
    } else {
        listed(places, p, w)
    } by {
        assert(lookup(after, p) == if p == pair {
            Some(words)
        } else {
            lookup(places, p)
        });
    }
}

/// How often each pair occurs in a word.
fn word_pairs(word: &Vec<TokenID>) -> (counts: IndexMap<(TokenID, TokenID), usize>)
    ensures
        unique_keys(count_entries(counts)),
        forall|p: Pair| #[trigger]
            lookup_or(count_entries(counts), p, 0) == occurrences(word@, p),
        forall|p: Pair| #[trigger]
            has_key(count_entries(counts), p) <==> occurrences(word@, p) > 0,
{
    let mut counts = counts_new();
    proof {
        let none = Seq::<(Pair, usize)>::empty();
        assert forall|p: Pair| lookup_or(none, p, 0) + 1 * #[trigger] occurrences(word@, p)
            <= usize::MAX by {
            lemma_occurrences(word@, p);
            assert(word@.len() == word.len());
        }
        lemma_tally_pairs(none, word@, 1);
        assert(forall|p: Pair| lookup_or(none, p, 0) == 0);
    }
    count_pairs(word, &mut counts, 1);
    counts
}

/// Adds `count` occurrences of `word`.
pub(crate) fn record_word(
    counts: &mut IndexMap<(TokenID, TokenID), usize>,
    places: &mut IndexMap<(TokenID, TokenID), IndexSet<Vec<TokenID>>>,
    word: &Vec<TokenID>,
    count: usize,
)
    requires
        count > 0,
        counts_valid(count_entries(*old(counts))),
        places_valid(index_entries(*old(places))),
        forall|p: Pair|
            lookup_or(count_entries(*old(counts)), p, 0) + count * #[trigger] occurrences(word@, p)
                <= usize::MAX,
    ensures
        counts_valid(count_entries(*final(counts))),
        places_valid(index_entries(*final(places))),
        forall|p: Pair| #[trigger]
            lookup_or(count_entries(*final(counts)), p, 0) == lookup_or(
                count_entries(*old(counts)),
                p,
                0,
            ) + count * occurrences(word@, p),
        forall|p: Pair, w: Seq<TokenID>| #[trigger]
            listed(index_entries(*final(places)), p, w) <==> listed(
                index_entries(*old(places)),
                p,
                w,
            ) || (w == word@ && occurrences(word@, p) > 0),
{
    let ghost counts0 = count_entries(*counts);
    let ghost places0 = index_entries(*places);
    let local = word_pairs(word);
    let ghost tallied = count_entries(local);
    let mut i: usize = 0;
    loop
        invariant_except_break
            i <= tallied.len(),
        invariant
            count > 0,
            tallied == count_entries(local),
            unique_keys(tallied),
            forall|p: Pair| #[trigger] lookup_or(tallied, p, 0) == occurrences(word@, p),
            forall|p: Pair| #[trigger] has_key(tallied, p) <==> occurrences(word@, p) > 0,
            counts_valid(counts0),
            forall|p: Pair|
                lookup_or(counts0, p, 0) + count * #[trigger] occurrences(word@, p) <= usize::MAX,
            counts_valid(count_entries(*counts)),
            places_valid(index_entries(*places)),
            forall|p: Pair| #[trigger]
                lookup_or(count_entries(*counts), p, 0) == lookup_or(counts0, p, 0) + if has_key(
                    tallied.take(i as int),
                    p,
                ) {
                    count * occurrences(word@, p)
                } else {
                    0
                },
            forall|p: Pair, w: Seq<TokenID>| #[trigger]
                listed(index_entries(*places), p, w) <==> listed(places0, p, w) || (w == word@
                    && has_key(tallied.take(i as int), p)),
        ensures
            i == tallied.len(),
        decreases tallied.len() - i,
    {
        let entry = counts_get_index(&local, i);
        if entry.is_none() {
            break;
        }
        let (pair, times) = entry.unwrap();
        let ghost before = count_entries(*counts);
        let ghost listed_before = index_entries(*places);
        proof {
            assert(tallied[i as int] == (pair, times));
            lemma_position(tallied, i as int);
            assert(lookup_or(tallied, pair, 0) == times);
            assert(occurrences(word@, pair) == times);
            assert(has_key(tallied, pair));
            lemma_take_keys(tallied, i as int);
            assert(lookup_or(before, pair, 0) == lookup_or(counts0, pair, 0));
            assert(count * times > 0) by (nonlinear_arith)
                requires
                    count > 0,
                    times > 0,
            ;
            assert(lookup_or(counts0, pair, 0) + count * occurrences(word@, pair) <= usize::MAX);
            assert(times * count == count * times) by (nonlinear_arith);
        }
        let slot = counts_slot(counts, pair);
        *slot = *slot + times * count;
        let fresh = set_new();
        let set = index_slot(places, pair, fresh);
        let ghost listed_here = set_items(*set);
        let copy = word.clone();
        assert(copy@ == word@);
        proof {
            if has_key(listed_before, pair) {
                let j = crate::ordered::position(listed_before, pair);
                assert(listed_before[j].1.no_duplicates());
            }
            assert(listed_here.no_duplicates());
            lemma_include_item(listed_here, word@);
            lemma_put_places(listed_before, pair, include_item(listed_here, word@));
            lemma_put(before, pair, (lookup_or(before, pair, 0) + times * count) as usize);
        }
        set_insert(set, copy);
        i += 1;
        proof {
            let after = count_entries(*counts);
            assert forall|p: Pair| #[trigger]
                lookup_or(after, p, 0) == lookup_or(counts0, p, 0) + (if has_key(
                    tallied.take(i as int),
                    p,
                ) {
                    count * occurrences(word@, p)
                } else {
                    0
                }) by {
                assert(lookup(after, p) == if p == pair {
                    Some((lookup_or(before, pair, 0) + times * count) as usize)
                } else {
                    lookup(before, p)
                });
                assert(lookup_or(before, p, 0) == lookup_or(counts0, p, 0) + if has_key(
                    tallied.take(i - 1),
                    p,
                ) {
                    count * occurrences(word@, p)
                } else {
                    0
                });
            }
            assert forall|p: Pair| #[trigger] has_key(after, p) <==> lookup_or(after, p, 0) > 0 by {
                assert(lookup(after, p) == if p == pair {
                    Some((lookup_or(before, pair, 0) + times * count) as usize)
                } else {
                    lookup(before, p)
                });
                assert(has_key(before, p) <==> lookup_or(before, p, 0) > 0);
            }
            assert forall|p: Pair, w: Seq<TokenID>| #[trigger]
                listed(index_entries(*places), p, w) <==> listed(places0, p, w) || (w == word@
                    && has_key(tallied.take(i as int), p)) by {
                assert(listed(index_entries(*places), p, w) <==> if p == pair {
                    include_item(listed_here, word@).contains(w)
                } else {
                    listed(listed_before, p, w)
                });
                assert(listed(listed_before, p, w) <==> listed(places0, p, w) || (w == word@
                    && has_key(tallied.take(i - 1), p)));
            }
        }
    }
    proof {
        assert(tallied.take(i as int) == tallied);
        assert forall|p: Pair| #[trigger]
            lookup_or(count_entries(*counts), p, 0) == lookup_or(counts0, p, 0) + count
                * occurrences(word@, p) by {
            if occurrences(word@, p) == 0 {
                assert(count * occurrences(word@, p) == 0) by (nonlinear_arith)
                    requires
                        occurrences(word@, p) == 0,
                ;
            } else {
                assert(has_key(tallied, p));
            }
            assert(has_key(tallied, p) <==> occurrences(word@, p) > 0);
        }
        assert forall|p: Pair, w: Seq<TokenID>| #[trigger]
            listed(index_entries(*places), p, w) <==> listed(places0, p, w) || (w == word@
                && occurrences(word@, p) > 0) by {
            assert(has_key(tallied, p) <==> occurrences(word@, p) > 0);
        }
    }
}

/// Takes `count` occurrences of `word` away.
pub(crate) fn forget_word(
    counts: &mut IndexMap<(TokenID, TokenID), usize>,
    places: &mut IndexMap<(TokenID, TokenID), IndexSet<Vec<TokenID>>>,
    word: &Vec<TokenID>,
    count: usize,
)
    requires
        count > 0,
        counts_valid(count_entries(*old(counts))),
        places_valid(index_entries(*old(places))),
        forall|p: Pair|
            count * #[trigger] occurrences(word@, p) <= lookup_or(
                count_entries(*old(counts)),
                p,
                0,
            ),
    ensures
        counts_valid(count_entries(*final(counts))),
        places_valid(index_entries(*final(places))),
        forall|p: Pair| #[trigger]
            lookup_or(count_entries(*final(counts)), p, 0) == lookup_or(
                count_entries(*old(counts)),
                p,
                0,
            ) - count * occurrences(word@, p),
        forall|p: Pair, w: Seq<TokenID>| #[trigger]
            listed(index_entries(*final(places)), p, w) <==> listed(
                index_entries(*old(places)),
                p,
                w,
            ) && !(w == word@ && occurrences(word@, p) > 0),
{
    let ghost counts0 = count_entries(*counts);
    let ghost places0 = index_entries(*places);
    let local = word_pairs(word);
    let ghost tallied = count_entries(local);
    let mut i: usize = 0;
    loop
        invariant_except_break
            i <= tallied.len(),
        invariant
            count > 0,
            tallied == count_entries(local),
            unique_keys(tallied),
            forall|p: Pair| #[trigger] lookup_or(tallied, p, 0) == occurrences(word@, p),
            forall|p: Pair| #[trigger] has_key(tallied, p) <==> occurrences(word@, p) > 0,
            counts_valid(counts0),
            forall|p: Pair|
                count * #[trigger] occurrences(word@, p) <= lookup_or(counts0, p, 0),
            counts_valid(count_entries(*counts)),
            places_valid(index_entries(*places)),
            forall|p: Pair| #[trigger]
                lookup_or(count_entries(*counts), p, 0) == lookup_or(counts0, p, 0) - if has_key(
                    tallied.take(i as int),
                    p,
                ) {
                    count * occurrences(word@, p)
                } else {
                    0
                },
            forall|p: Pair, w: Seq<TokenID>| #[trigger]
                listed(index_entries(*places), p, w) <==> listed(places0, p, w) && !(w == word@
                    && has_key(tallied.take(i as int), p)),
        ensures
            i == tallied.len(),
        decreases tallied.len() - i,
    {
        let entry = counts_get_index(&local, i);
        if entry.is_none() {
            break;
        }
        let (pair, times) = entry.unwrap();
        let ghost before = count_entries(*counts);
        let ghost listed_before = index_entries(*places);
        proof {
            assert(tallied[i as int] == (pair, times));
            lemma_position(tallied, i as int);
            assert(lookup_or(tallied, pair, 0) == times);
            assert(occurrences(word@, pair) == times);
            assert(has_key(tallied, pair));
            lemma_take_keys(tallied, i as int);
            assert(lookup_or(before, pair, 0) == lookup_or(counts0, pair, 0));
            assert(count * times > 0) by (nonlinear_arith)
                requires
                    count > 0,
                    times > 0,
            ;
            assert(count * occurrences(word@, pair) <= lookup_or(counts0, pair, 0));
            assert(times * count == count * times) by (nonlinear_arith);
        }
        let slot = counts_slot(counts, pair);
        *slot = *slot - times * count;
        let left: usize = *slot;
        let ghost lowered = count_entries(*counts);
        proof {
            lemma_put(before, pair, left);
            lemma_swap_drop(lowered, pair);
            assert(lookup(lowered, pair) == Some(left));
        }
        if left == 0 {
            counts_swap_remove(counts, pair);
        }
        proof {
            if has_key(listed_before, pair) {
                let j = crate::ordered::position(listed_before, pair);
                let here = listed_before[j].1;
                assert(here.no_duplicates());
                lemma_swap_out(here, word@);
                lemma_put_places(listed_before, pair, swap_out(here, word@));
            }
        }
        let found = index_get_mut(places, pair);
        if let Some(set) = found {
            set_swap_remove(set, word);
        }
        i += 1;
        proof {
            let after = count_entries(*counts);
            assert forall|p: Pair| #[trigger]
                lookup_or(after, p, 0) == (if p == pair {
                    left
                } else {
                    lookup_or(before, p, 0)
                }) by {
                assert(lookup(lowered, p) == if p == pair {
                    Some(left)
                } else {
                    lookup(before, p)
                });
                if left == 0 {
                    assert(lookup(swap_drop(lowered, pair), p) == if p == pair {
                        None
                    } else {
                        lookup(lowered, p)
                    });
                }
            }
            assert forall|p: Pair| #[trigger]
                lookup_or(after, p, 0) == lookup_or(counts0, p, 0) - (if has_key(
                    tallied.take(i as int),
                    p,
                ) {
                    count * occurrences(word@, p)
                } else {
                    0
                }) by {
                assert(lookup_or(before, p, 0) == lookup_or(counts0, p, 0) - if has_key(
                    tallied.take(i - 1),
                    p,
                ) {
                    count * occurrences(word@, p)
                } else {
                    0
                });
            }
            assert forall|p: Pair| #[trigger] has_key(after, p) <==> lookup_or(after, p, 0) > 0 by {
                assert(has_key(before, p) <==> lookup_or(before, p, 0) > 0);
                assert(has_key(lowered, p) <==> p == pair || has_key(before, p));
                if left == 0 {
                    assert(has_key(swap_drop(lowered, pair), p) <==> p != pair && has_key(
                        lowered,
                        p,
                    ));
                }
            }
            assert forall|p: Pair, w: Seq<TokenID>| #[trigger]
                listed(index_entries(*places), p, w) <==> listed(places0, p, w) && !(w == word@
                    && has_key(tallied.take(i as int), p)) by {
                assert(listed(listed_before, p, w) <==> listed(places0, p, w) && !(w == word@
                    && has_key(tallied.take(i - 1), p)));
                assert(listed(index_entries(*places), p, w) <==> listed(listed_before, p, w) && !(p
                    == pair && w == word@));
            }
        }
    }
    proof {
        assert(tallied.take(i as int) == tallied);
        assert forall|p: Pair| #[trigger]
            lookup_or(count_entries(*counts), p, 0) == lookup_or(counts0, p, 0) - count
                * occurrences(word@, p) by {
            if occurrences(word@, p) == 0 {
                assert(count * occurrences(word@, p) == 0) by (nonlinear_arith)
                    requires
                        occurrences(word@, p) == 0,
                ;
            }
            assert(has_key(tallied, p) <==> occurrences(word@, p) > 0);
        }
        assert forall|p: Pair, w: Seq<TokenID>| #[trigger]
            listed(index_entries(*places), p, w) <==> listed(places0, p, w) && !(w == word@
                && occurrences(word@, p) > 0) by {
            assert(has_key(tallied, p) <==> occurrences(word@, p) > 0);
        }
    }
}

/// The pair with the highest count, and of those with that count the highest
/// pair.
pub(crate) fn best_counted(counts: &IndexMap<(TokenID, TokenID), usize>) -> (best: Option<
    (TokenID, TokenID),
>)
    requires
        unique_keys(count_entries(*counts)),
    ensures
        best is None <==> count_entries(*counts).len() == 0,
        best matches Some(pair) ==> {
            &&& has_key(count_entries(*counts), pair)
            &&& forall|p: Pair| #[trigger]
                has_key(count_entries(*counts), p) && p != pair ==> rank_below(
                    (lookup_or(count_entries(*counts), p, 0) as nat, p),
                    (lookup_or(count_entries(*counts), pair, 0) as nat, pair),
                )
        },
{
    let ghost all = count_entries(*counts);
    let mut best: Option<(Pair, usize)> = None;
    let mut i: usize = 0;
    loop
        invariant_except_break
            i <= all.len(),
        invariant
            all == count_entries(*counts),
            unique_keys(all),
            best is None <==> i == 0,
            best matches Some(entry) ==> {
                &&& exists|j: int| 0 <= j < i && j < all.len() && #[trigger] all[j] == entry
                &&& forall|j: int|
                    0 <= j < i && j < all.len() && (#[trigger] all[j]).0 != entry.0 ==> rank_below(
                        (all[j].1 as nat, all[j].0),
                        (entry.1 as nat, entry.0),
                    )
            },
        ensures
            i == all.len(),
        decreases all.len() - i,
    {
        let next = counts_get_index(counts, i);
        if next.is_none() {
            break;
        }
        let (pair, count) = next.unwrap();
        let better = match best {
            None => true,
            Some((top, top_count)) => count > top_count || (count == top_count && (pair.0 > top.0
                || (pair.0 == top.0 && pair.1 >= top.1))),
        };
        assert(all[i as int] == (pair, count));
        if better {
            best = Some((pair, count));
        } else {
            proof {
                let entry = best->0;
                let j = choose|j: int| 0 <= j < i && j < all.len() && all[j] == entry;
                assert(all[j].0 != all[i as int].0);
            }
        }
        i += 1;
    }
    proof {
        if best is Some {
            let entry = best->0;
            let j = choose|j: int| 0 <= j < i && j < all.len() && all[j] == entry;
            lemma_position(all, j);
            assert forall|p: Pair| #[trigger] has_key(all, p) && p != entry.0 implies rank_below(
                (lookup_or(all, p, 0) as nat, p),
                (lookup_or(all, entry.0, 0) as nat, entry.0),
            ) by {
                let k = crate::ordered::position(all, p);
                assert(all[k].0 == p);
            }
        }
    }
    match best {
        Some((pair, _)) => Some(pair),
        None => None,
    }
}

/// The keys of one entry more.
proof fn lemma_take_keys(entries: Seq<(Pair, usize)>, i: int)
    requires
        unique_keys(entries),
        0 <= i < entries.len(),
    ensures
        !has_key(entries.take(i), entries[i].0),
        forall|p: Pair| #[trigger]
            has_key(entries.take(i + 1), p) <==> p == entries[i].0 || has_key(entries.take(i), p),
{
    if has_key(entries.take(i), entries[i].0) {
        let j = crate::ordered::position(entries.take(i), entries[i].0);
        assert(entries.take(i)[j].0 == entries[i].0);
        assert(entries[j].0 != entries[i].0);
    }
    assert forall|p: Pair| #[trigger]
        has_key(entries.take(i + 1), p) <==> p == entries[i].0 || has_key(entries.take(i), p) by {
        if has_key(entries.take(i), p) {
            let j = crate::ordered::position(entries.take(i), p);
            assert(entries.take(i)[j].0 == p);
            assert(entries.take(i + 1)[j].0 == p);
        }
        if p == entries[i].0 {
            assert(entries.take(i + 1)[i].0 == p);
        }
        if has_key(entries.take(i + 1), p) {
            let j = crate::ordered::position(entries.take(i + 1), p);
            assert(entries.take(i + 1)[j].0 == p);
            if j < i {
                assert(entries.take(i)[j].0 == p);
            }
        }
    }
}

} // verus!

//! Counting the words of a corpus and learning merge rules from them.

use indexmap::IndexMap;
use vstd::prelude::*;
use vstd::utf8::encode_utf8;

use crate::bpe::{
    greedy_rules, is_run, law_learning_stops_where_no_pair_is_left,
    law_more_merges_keep_the_first_rules, law_most_frequent_pair_is_merged,
    law_rules_ignore_scale, law_rules_ignore_word_order, law_run_is_greedy, learn_rules,
    lemma_rules_after, rules_after, tokens_below, well_numbered, words_so_far, BYTE_TOKENS,
    MAX_MERGES,
};
use crate::chunks::{
    ends_once, file_chunks, file_ends, law_documents_stay_apart, law_ended_file_has_ended_chunks,
};
use crate::ordered::{
    has_key, lemma_position, lemma_put, lemma_put_again, lemma_put_swap, lookup, lookup_or,
    position, put, rule_entries, rules_new, text_entries, texts_get_index, texts_new, texts_slot,
    unique_keys, word_entries, words_new, words_slot, TokenID,
};
use crate::pairs::{byte_tokens, encode_text, Pair};
use crate::pattern::{find_all, pretokens, texts, PRETOKEN_PATTERN};
use crate::schedule::{ceil_div, div_ceil, lemma_ceil_div};
use crate::search::{lemma_encode_concat, lemma_encode_injective, lemma_encode_len};
use crate::text::{decode_lossy, lossy_text};
use crate::tokenizer::{apply_rules, word_ids};
use crate::words::{
    corpus_size, lemma_total_prefix, lemma_total_put, lemma_total_share, pair_weight, positive,
    same_words, Counted,
};

verus! {

/// Words as text, each with how often it occurs.
pub type Tally = Seq<(Seq<char>, usize)>;

/// The tally with some more of a word: at its place, or last where it is new.
pub open spec fn added(tally: Tally, word: Seq<char>, count: usize) -> Tally {
    put(tally, word, (lookup_or(tally, word, 0) + count) as usize)
}

/// The tally after words were counted one by one.
pub open spec fn tallied(tally: Tally, words: Seq<Seq<char>>) -> Tally
    decreases words.len(),
{
    if words.len() == 0 {
        tally
    } else {
        added(tallied(tally, words.drop_last()), words.last(), 1)
    }
}

/// The tally after the counts of another were added word by word.
pub open spec fn absorbed(tally: Tally, other: Tally) -> Tally
    decreases other.len(),
{
    if other.len() == 0 {
        tally
    } else {
        added(absorbed(tally, other.drop_last()), other.last().0, other.last().1)
    }
}

/// The tally after all the others were added, one after the other.
pub open spec fn absorbed_all(tally: Tally, others: Seq<Tally>) -> Tally
    decreases others.len(),
{
    if others.len() == 0 {
        tally
    } else {
        absorbed(absorbed_all(tally, others.drop_last()), others.last())
    }
}

/// The counted words as tokens that stand for their bytes.
pub open spec fn byte_words(tally: Tally) -> Counted {
    tally.map_values(
        |entry: (Seq<char>, usize)| (byte_tokens(encode_utf8(entry.0)), entry.1),
    )
}

/// How many bytes the counted words have in all.
pub open spec fn text_size(tally: Tally) -> nat {
    corpus_size(byte_words(tally))
}

/// The words are distinct, none is empty, and each occurs.
pub open spec fn tally_valid(tally: Tally) -> bool {
    &&& unique_keys(tally)
    &&& forall|i: int|
        0 <= i < tally.len() ==> (#[trigger] tally[i]).0.len() > 0 && tally[i].1 > 0
}

/// The tally holds each of the words as often as it occurs, and no other word.
pub open spec fn counts_words(tally: Tally, words: Seq<Seq<char>>) -> bool {
    &&& unique_keys(tally)
    &&& forall|word: Seq<char>| #[trigger]
        lookup_or(tally, word, 0) == words.to_multiset().count(word)
    &&& forall|word: Seq<char>| #[trigger] has_key(tally, word) <==> words.contains(word)
}

/// Each tally holds the words of its group.
pub open spec fn counts_groups(tallies: Seq<Tally>, groups: Seq<Seq<Seq<char>>>) -> bool {
    &&& tallies.len() == groups.len()
    &&& forall|i: int| 0 <= i < groups.len() ==> #[trigger] counts_words(tallies[i], groups[i])
}

/// Words with the same bytes are the same.
proof fn lemma_same_bytes(a: Seq<char>, b: Seq<char>)
    requires
        byte_tokens(encode_utf8(a)) == byte_tokens(encode_utf8(b)),
    ensures
        a == b,
{
    let x = encode_utf8(a);
    let y = encode_utf8(b);
    assert(x.len() == byte_tokens(x).len());
    assert(y.len() == byte_tokens(y).len());
    assert(x == y) by {
        assert forall|i: int| 0 <= i < x.len() implies x[i] == y[i] by {
            assert(byte_tokens(x)[i] == byte_tokens(y)[i]);
        }
    }
    lemma_encode_injective(a, b);
}

/// The words of bytes belong to the words.
proof fn lemma_byte_words(tally: Tally)
    requires
        tally_valid(tally),
    ensures
        unique_keys(byte_words(tally)),
        positive(byte_words(tally)),
        tokens_below(byte_words(tally), BYTE_TOKENS as int),
{
    let words = byte_words(tally);
    assert forall|i: int, j: int| 0 <= i < j < words.len() implies (#[trigger] words[i]).0 != (
    #[trigger] words[j]).0 by {
        assert(tally[i].0 != tally[j].0);
        if words[i].0 == words[j].0 {
            lemma_same_bytes(tally[i].0, tally[j].0);
        }
    }
    assert forall|i: int| 0 <= i < words.len() implies (#[trigger] words[i]).1 > 0 by {
        assert(tally[i].1 > 0);
    }
}

/// What counting a word does to the bytes counted.
proof fn lemma_added(tally: Tally, word: Seq<char>, count: usize)
    requires
        tally_valid(tally),
        word.len() > 0,
        count > 0,
        text_size(tally) + count * encode_utf8(word).len() <= usize::MAX,
    ensures
        lookup_or(tally, word, 0) + count <= usize::MAX,
        tally_valid(added(tally, word, count)),
        text_size(added(tally, word, count)) == text_size(tally) + count * encode_utf8(word).len(),
{
    let measure = |w: Seq<TokenID>| w.len();
    let words = byte_words(tally);
    let key = byte_tokens(encode_utf8(word));
    let len = encode_utf8(word).len();
    let have = lookup_or(tally, word, 0);
    lemma_byte_words(tally);
    lemma_encode_len(word);
    assert(key.len() == len);
    if has_key(tally, word) {
        let p = position(tally, word);
        assert(tally[p].0 == word);
        assert(words[p] == (key, have));
        lemma_total_share(words, p, measure);
        lemma_position(words, p);
        assert(have * len <= text_size(tally));
    } else {
        assert(!has_key(words, key)) by {
            if has_key(words, key) {
                let p = position(words, key);
                assert(words[p].0 == key);
                lemma_same_bytes(tally[p].0, word);
            }
        }
        assert(0 * len == 0) by (nonlinear_arith);
    }
    assert(lookup_or(words, key, 0) == have);
    assert((have + count) * len == have * len + count * len) by (nonlinear_arith);
    assert(have + count <= (have + count) * len) by (nonlinear_arith)
        requires
            len >= 1,
            have >= 0,
            count >= 0,
    ;
    let sum = (have + count) as usize;
    lemma_put(tally, word, sum);
    assert(byte_words(put(tally, word, sum)) == put(words, key, sum));
    lemma_total_put(words, key, sum, measure);
    let after = put(tally, word, sum);
    assert forall|i: int| 0 <= i < after.len() implies (#[trigger] after[i]).0.len() > 0
        && after[i].1 > 0 by {
        if i < tally.len() {
            assert(tally[i].0.len() > 0 && tally[i].1 > 0);
        }
    }
}

/// Counting one word more.
proof fn lemma_counts_added(tally: Tally, words: Seq<Seq<char>>, word: Seq<char>)
    requires
        counts_words(tally, words),
        lookup_or(tally, word, 0) + 1 <= usize::MAX,
    ensures
        counts_words(added(tally, word, 1), words.push(word)),
{
    broadcast use vstd::seq_lib::group_to_multiset_ensures;

    let after = added(tally, word, 1);
    let more = words.push(word);
    lemma_put(tally, word, (lookup_or(tally, word, 0) + 1) as usize);
    assert forall|w: Seq<char>| #[trigger]
        lookup_or(after, w, 0) == more.to_multiset().count(w) by {
        assert(lookup_or(tally, w, 0) == words.to_multiset().count(w));
    }
    assert forall|w: Seq<char>| #[trigger] has_key(after, w) <==> more.contains(w) by {
        assert(has_key(tally, w) <==> words.contains(w));
        if words.contains(w) {
            let i = words.index_of(w);
            assert(more[i] == w);
        }
        if w == word {
            assert(more[words.len() as int] == w);
        }
        if more.contains(w) && w != word {
            let i = more.index_of(w);
            assert(words[i] == w);
        }
    }
}

/// No word occurs more often than the words have bytes.
proof fn lemma_count_bound(tally: Tally, word: Seq<char>)
    requires
        tally_valid(tally),
    ensures
        lookup_or(tally, word, 0) <= text_size(tally),
{
    if has_key(tally, word) {
        let p = position(tally, word);
        assert(tally[p].0 == word);
        assert(tally[p].0.len() > 0);
        let len = encode_utf8(word).len();
        lemma_encode_len(word);
        lemma_total_share(byte_words(tally), p, |w: Seq<TokenID>| w.len());
        assert(byte_words(tally)[p] == (byte_tokens(encode_utf8(word)), tally[p].1));
        assert(tally[p].1 <= tally[p].1 * len) by (nonlinear_arith)
            requires
                len >= 1,
                tally[p].1 >= 0,
        ;
    }
}

/// The bytes of the first words are part of those of all words.
proof fn lemma_words_bytes(words: Seq<Seq<char>>, i: int)
    requires
        0 <= i < words.len(),
    ensures
        encode_utf8(words.take(i + 1).flatten()).len() == encode_utf8(words.take(i).flatten()).len()
            + encode_utf8(words[i]).len(),
        encode_utf8(words.take(i + 1).flatten()).len() <= encode_utf8(words.flatten()).len(),
{
    let head = words.take(i);
    let more = words.take(i + 1);
    let rest = words.skip(i + 1);
    assert(more == head.push(words[i]));
    head.lemma_flatten_push(words[i]);
    lemma_encode_concat(head.flatten(), words[i]);
    assert(words == more + rest);
    vstd::seq_lib::lemma_flatten_concat(more, rest);
    lemma_encode_concat(more.flatten(), rest.flatten());
}

/// How often each word of a corpus occurs.
pub struct WordCounts {
    counts: IndexMap<String, usize>,
    size: usize,
}

impl View for WordCounts {
    type V = Tally;

    closed spec fn view(&self) -> Tally {
        text_entries(self.counts)
    }
}

impl WordCounts {
    /// The words are distinct, none is empty, each occurs, and all their bytes
    /// were counted.
    pub closed spec fn wf(&self) -> bool {
        &&& tally_valid(self@)
        &&& self.size == text_size(self@)
    }

    /// No words.
    pub fn new() -> (counts: WordCounts)
        ensures
            counts.wf(),
            counts@ == Seq::<(Seq<char>, usize)>::empty(),
            counts_words(counts@, Seq::empty()),
    {
        let counts = WordCounts { counts: texts_new(), size: 0 };
        proof {
            broadcast use vstd::seq_lib::group_to_multiset_ensures;

            let none = Seq::<Seq<char>>::empty();
            assert forall|word: Seq<char>| #[trigger]
                lookup_or(counts@, word, 0) == none.to_multiset().count(word) by {
                assert(!none.contains(word));
            }
        }
        assert(byte_words(counts@) == Seq::<(Seq<TokenID>, usize)>::empty());
        counts
    }

    /// How many bytes the words have in all.
    pub fn size(&self) -> (size: usize)
        requires
            self.wf(),
        ensures
            size == text_size(self@),
            tally_valid(self@),
    {
        self.size
    }

    /// How often a word occurs, by its position in the order of first occurrence.
    pub fn get(&self, index: usize) -> (entry: Option<(&String, usize)>)
        ensures
            entry is Some <==> index < self@.len(),
            entry matches Some((word, count)) ==> (word@, count) == self@[index as int],
    {
        texts_get_index(&self.counts, index)
    }

    /// Counts words one by one.
    pub fn count_words(&mut self, words: &Vec<&str>)
        requires
            old(self).wf(),
            forall|i: int| 0 <= i < words@.len() ==> (#[trigger] words@[i])@.len() > 0,
            text_size(old(self)@) + encode_utf8(texts(words@).flatten()).len() <= usize::MAX,
        ensures
            final(self).wf(),
            final(self)@ == tallied(old(self)@, texts(words@)),
            text_size(final(self)@) == text_size(old(self)@) + encode_utf8(
                texts(words@).flatten(),
            ).len(),
            forall|before: Seq<Seq<char>>| #[trigger]
                counts_words(old(self)@, before) ==> counts_words(
                    final(self)@,
                    before + texts(words@),
                ),
    {
        let ghost all = texts(words@);
        let ghost before = self@;
        proof {
            assert(all.take(0) == Seq::<Seq<char>>::empty());
            lemma_encode_len(all.take(0).flatten());
            assert forall|known: Seq<Seq<char>>| #[trigger] counts_words(
                before,
                known,
            ) implies counts_words(self@, known + all.take(0)) by {
                assert(known + all.take(0) == known);
            }
        }
        let mut i: usize = 0;
        while i < words.len()
            invariant
                i <= words.len(),
                all == texts(words@),
                forall|j: int| 0 <= j < words@.len() ==> (#[trigger] words@[j])@.len() > 0,
                self.wf(),
                self@ == tallied(before, all.take(i as int)),
                self.size == text_size(before) + encode_utf8(all.take(i as int).flatten()).len(),
                text_size(before) + encode_utf8(all.flatten()).len() <= usize::MAX,
                forall|known: Seq<Seq<char>>| #[trigger]
                    counts_words(before, known) ==> counts_words(
                        self@,
                        known + all.take(i as int),
                    ),
            decreases words.len() - i,
        {
            let word: &str = words[i];
            proof {
                lemma_words_bytes(all, i as int);
                assert(all[i as int] == word@);
                assert(1 * encode_utf8(word@).len() == encode_utf8(word@).len())
                    by (nonlinear_arith);
                lemma_added(self@, word@, 1);
                assert(all.take(i + 1).drop_last() == all.take(i as int));
                assert(all.take(i + 1).last() == word@);
            }
            let ghost previous = self@;
            let slot = texts_slot(&mut self.counts, word.to_owned());
            *slot = *slot + 1;
            self.size = self.size + word.as_bytes().len();
            proof {
                assert forall|known: Seq<Seq<char>>| #[trigger] counts_words(
                    before,
                    known,
                ) implies counts_words(self@, known + all.take(i + 1)) by {
                    lemma_counts_added(previous, known + all.take(i as int), word@);
                    assert(known + all.take(i + 1) == (known + all.take(i as int)).push(word@));
                }
            }
            i += 1;
        }
        assert(all.take(i as int) == all);
    }

    /// Counts the words of a text that is given as bytes, with replacement
    /// characters where these are not UTF-8. Returns whether it did: it leaves the
    /// counts as they were where the search for words is given up, or where the
    /// bytes of all words could no longer be counted.
    pub fn count_chunk(&mut self, chunk: &[u8]) -> (counted: bool)
        requires
            old(self).wf(),
        ensures
            final(self).wf(),
            counted <==> pretokens(lossy_text(chunk@)) is Some && text_size(old(self)@)
                + encode_utf8(lossy_text(chunk@)).len() <= usize::MAX,
            counted ==> (pretokens(lossy_text(chunk@)) matches Some(words) && final(self)@
                == tallied(old(self)@, words)),
            counted ==> forall|before: Seq<Seq<char>>| #[trigger]
                counts_words(old(self)@, before) ==> counts_words(
                    final(self)@,
                    before + chunk_words(chunk@),
                ),
            !counted ==> final(self)@ == old(self)@,
    {
        let text = decode_lossy(chunk);
        let len = text.as_str().as_bytes().len();
        match find_all(PRETOKEN_PATTERN, text.as_str()) {
            Some(words) => {
                if len <= usize::MAX - self.size {
                    self.count_words(&words);
                    true
                } else {
                    false
                }
            },
            None => false,
        }
    }

    /// Adds the counts of another.
    pub fn absorb(&mut self, other: &WordCounts)
        requires
            old(self).wf(),
            other.wf(),
            text_size(old(self)@) + text_size(other@) <= usize::MAX,
        ensures
            final(self).wf(),
            final(self)@ == absorbed(old(self)@, other@),
            text_size(final(self)@) == text_size(old(self)@) + text_size(other@),
            forall|a: Seq<Seq<char>>, b: Seq<Seq<char>>| #[trigger]
                counts_words(old(self)@, a) && #[trigger] counts_words(other@, b) ==> counts_words(
                    final(self)@,
                    a + b,
                ),
    {
        let ghost all = other@;
        let ghost before = self@;
        let ghost measure = |w: Seq<TokenID>| w.len();
        proof {
            assert(all.take(0) == Seq::<(Seq<char>, usize)>::empty());
            assert(byte_words(all.take(0)) == Seq::<(Seq<TokenID>, usize)>::empty());
        }
        let mut i: usize = 0;
        loop
            invariant_except_break
                i <= all.len(),
            invariant
                all == other@,
                other.wf(),
                self.wf(),
                self@ == absorbed(before, all.take(i as int)),
                measure == (|w: Seq<TokenID>| w.len()),
                self.size == text_size(before) + text_size(all.take(i as int)),
                text_size(before) + text_size(all) <= usize::MAX,
            ensures
                i == all.len(),
            decreases all.len() - i,
        {
            let entry = texts_get_index(&other.counts, i);
            if entry.is_none() {
                break;
            }
            let (word, count) = entry.unwrap();
            let ghost more = all.take(i + 1);
            proof {
                assert(all[i as int] == (word@, count));
                assert(all[i as int].0.len() > 0 && all[i as int].1 > 0);
                assert(byte_words(more) == byte_words(all).take(i + 1));
                lemma_total_prefix(byte_words(all), i + 1, measure);
                assert(more.drop_last() == all.take(i as int));
                assert(byte_words(more).drop_last() == byte_words(all.take(i as int)));
                assert(byte_words(more).last() == (byte_tokens(encode_utf8(word@)), count));
                assert(text_size(more) == text_size(all.take(i as int)) + count * encode_utf8(
                    word@,
                ).len());
                lemma_added(self@, word@, count);
            }
            let slot = texts_slot(&mut self.counts, word.clone());
            *slot = *slot + count;
            proof {
                assert(text_size(more) <= text_size(all));
                assert(count * encode_utf8(word@).len() >= 0) by (nonlinear_arith);
            }
            let bytes = word.as_str().as_bytes().len();
            assert(count * bytes == count * encode_utf8(word@).len());
            self.size = self.size + count * bytes;
            i += 1;
        }
        assert(all.take(i as int) == all);
        proof {
            assert forall|a: Seq<Seq<char>>, b: Seq<Seq<char>>| #[trigger]
                counts_words(before, a) && #[trigger] counts_words(all, b) implies counts_words(
                self@,
                a + b,
            ) by {
                lemma_counts_absorbed(before, a, all, b);
            }
        }
    }
}

/// The bytes of the words in all of several counts.
pub open spec fn sizes(parts: Seq<Tally>) -> nat
    decreases parts.len(),
{
    if parts.len() == 0 {
        0
    } else {
        sizes(parts.drop_last()) + text_size(parts.last())
    }
}

/// What several counts hold.
pub open spec fn tallies(parts: Seq<WordCounts>) -> Seq<Tally> {
    parts.map_values(|part: WordCounts| part@)
}

/// The bytes of the first parts are part of those of all parts.
proof fn lemma_sizes_prefix(parts: Seq<Tally>, i: int)
    requires
        0 <= i <= parts.len(),
    ensures
        sizes(parts.take(i)) <= sizes(parts),
    decreases parts.len(),
{
    if i == parts.len() {
        assert(parts.take(i) == parts);
    } else {
        assert(parts.drop_last().take(i) == parts.take(i));
        lemma_sizes_prefix(parts.drop_last(), i);
    }
}

/// The counts of several parts of a corpus together, or `None` where the bytes of
/// all words could not be counted.
pub fn merge_counts(parts: &Vec<WordCounts>) -> (merged: Option<WordCounts>)
    requires
        forall|i: int| 0 <= i < parts@.len() ==> (#[trigger] parts@[i]).wf(),
    ensures
        match merged {
            Some(counts) => {
                &&& counts.wf()
                &&& counts@ == absorbed_all(Seq::empty(), tallies(parts@))
                &&& text_size(counts@) == sizes(tallies(parts@))
                &&& forall|groups: Seq<Seq<Seq<char>>>| #[trigger]
                    counts_groups(tallies(parts@), groups) ==> counts_words(
                        counts@,
                        groups.flatten(),
                    )
                &&& sizes(tallies(parts@)) <= usize::MAX
            },
            None => sizes(tallies(parts@)) > usize::MAX,
        },
{
    let ghost all = tallies(parts@);
    let mut merged = WordCounts::new();
    let mut i: usize = 0;
    proof {
        assert(all.take(0) == Seq::<Tally>::empty());
        assert(byte_words(merged@) == Seq::<(Seq<TokenID>, usize)>::empty());
        assert forall|groups: Seq<Seq<Seq<char>>>| #[trigger] counts_groups(
            all,
            groups,
        ) implies counts_words(merged@, groups.take(0).flatten()) by {
            assert(groups.take(0) == Seq::<Seq<Seq<char>>>::empty());
            assert(groups.take(0).flatten() == Seq::<Seq<char>>::empty());
        }
    }
    while i < parts.len()
        invariant
            i <= parts.len(),
            all == tallies(parts@),
            forall|j: int| 0 <= j < parts@.len() ==> (#[trigger] parts@[j]).wf(),
            merged.wf(),
            merged@ == absorbed_all(Seq::empty(), all.take(i as int)),
            text_size(merged@) == sizes(all.take(i as int)),
            forall|groups: Seq<Seq<Seq<char>>>| #[trigger]
                counts_groups(all, groups) ==> counts_words(
                    merged@,
                    groups.take(i as int).flatten(),
                ),
        decreases parts.len() - i,
    {
        let part = &parts[i];
        proof {
            assert(parts@[i as int].wf());
            assert(all.take(i + 1).drop_last() == all.take(i as int));
            assert(all.take(i + 1).last() == part@);
            lemma_sizes_prefix(all, i + 1);
        }
        if part.size() > usize::MAX - merged.size() {
            return None;
        }
        let ghost previous = merged@;
        merged.absorb(part);
        proof {
            assert forall|groups: Seq<Seq<Seq<char>>>| #[trigger] counts_groups(
                all,
                groups,
            ) implies counts_words(merged@, groups.take(i + 1).flatten()) by {
                assert(counts_words(all[i as int], groups[i as int]));
                assert(counts_words(previous, groups.take(i as int).flatten()));
                assert(groups.take(i + 1) == groups.take(i as int).push(groups[i as int]));
                groups.take(i as int).lemma_flatten_push(groups[i as int]);
            }
        }
        i += 1;
    }
    assert(all.take(i as int) == all);
    proof {
        assert forall|groups: Seq<Seq<Seq<char>>>| #[trigger] counts_groups(
            all,
            groups,
        ) implies counts_words(merged@, groups.flatten()) by {
            assert(groups.take(i as int) == groups);
        }
    }
    Some(merged)
}

/// How many stretches of a file one task counts, where each thread is to get
/// eight tasks.
pub fn ranges_per_task(ranges: usize, threads: usize) -> (size: usize)
    requires
        0 < threads,
        threads * 8 <= usize::MAX,
    ensures
        size == if ranges == 0 {
            1
        } else {
            ceil_div(ranges as int, threads * 8)
        },
        size >= 1,
        size * (threads * 8) >= ranges,
{
    proof {
        lemma_ceil_div(ranges as int, threads * 8);
    }
    let size = div_ceil(ranges, threads * 8);
    if size > 1 {
        size
    } else {
        assert(1 * (threads * 8) == threads * 8) by (nonlinear_arith);
        1
    }
}

impl WordCounts {
    /// The words as tokens that stand for their bytes.
    fn word_tokens(&self) -> (words: IndexMap<Vec<TokenID>, usize>)
        requires
            self.wf(),
        ensures
            word_entries(words) == byte_words(self@),
    {
        let ghost all = byte_words(self@);
        let mut words = words_new();
        let mut i: usize = 0;
        proof {
            lemma_byte_words(self@);
            assert(all.take(0) == Seq::<(Seq<TokenID>, usize)>::empty());
        }
        loop
            invariant_except_break
                i <= all.len(),
            invariant
                all == byte_words(self@),
                unique_keys(all),
                word_entries(words) == all.take(i as int),
            ensures
                i == all.len(),
            decreases all.len() - i,
        {
            let entry = texts_get_index(&self.counts, i);
            if entry.is_none() {
                break;
            }
            let (word, count) = entry.unwrap();
            let ids = encode_text(word.as_str());
            let ghost key = ids@;
            proof {
                assert(all[i as int] == (key, count));
                if has_key(all.take(i as int), key) {
                    let p = position(all.take(i as int), key);
                    assert(all.take(i as int)[p].0 == key);
                    assert(all[p].0 != all[i as int].0);
                }
                assert(all.take(i + 1) == all.take(i as int).push((key, count)));
            }
            let slot = words_slot(&mut words, ids);
            *slot = count;
            i += 1;
        }
        assert(all.take(i as int) == all);
        words
    }
}

/// Learns merge rules from the words of a corpus: as many as leave a vocabulary
/// of `vocab_size` tokens with those of bytes and the end token.
///
/// The rules come from a run that merges the best pair again and again. As long
/// as every merge can have a token number of its own, they are those of the
/// greedy learner, numbered in order. There are never more than asked for, and
/// no pair is merged by two rules.
pub fn train_bpe(counts: &WordCounts, vocab_size: usize) -> (rules: IndexMap<
    (TokenID, TokenID),
    TokenID,
>)
    requires
        counts.wf(),
    ensures
        vocab_size <= BYTE_TOKENS + 1 ==> rule_entries(rules) == Seq::<(Pair, TokenID)>::empty(),
        vocab_size > BYTE_TOKENS + 1 ==> exists|
            pairs: Seq<Pair>,
            orders: Seq<Seq<Seq<TokenID>>>,
        | #[trigger]
            is_run(
                byte_words(counts@),
                (vocab_size - BYTE_TOKENS - 1) as nat,
                pairs,
                orders,
            ) && rule_entries(rules) == rules_after(pairs, pairs.len() as int),
        BYTE_TOKENS + 1 < vocab_size <= BYTE_TOKENS + 1 + MAX_MERGES ==> rule_entries(rules)
            == greedy_rules(byte_words(counts@), 0, (vocab_size - BYTE_TOKENS - 1) as nat),
        vocab_size <= BYTE_TOKENS + 1 + MAX_MERGES ==> well_numbered(rule_entries(rules)),
        unique_keys(rule_entries(rules)),
        rule_entries(rules).len() > 0 ==> BYTE_TOKENS + rule_entries(rules).len() + 1 <= vocab_size,
        vocab_size <= BYTE_TOKENS + 1 + MAX_MERGES ==> forall|k: int, p: Pair|
            #![trigger pair_weight(
                words_so_far(byte_words(counts@), rule_entries(rules), k),
                p,
            )]
            0 <= k < rule_entries(rules).len() ==> ({
                let now = words_so_far(byte_words(counts@), rule_entries(rules), k);
                let chosen = rule_entries(rules)[k].0;
                &&& pair_weight(now, p) <= pair_weight(now, chosen)
                &&& pair_weight(now, p) == pair_weight(now, chosen) ==> p.0 < chosen.0 || (p.0
                    == chosen.0 && p.1 <= chosen.1)
            }),
{
    if vocab_size <= BYTE_TOKENS + 1 {
        return rules_new();
    }
    let merges: usize = vocab_size - BYTE_TOKENS - 1;
    let ghost words = byte_words(counts@);
    proof {
        lemma_byte_words(counts@);
    }
    let rules = learn_rules(counts.word_tokens(), merges);
    proof {
        let (pairs, orders) = choose|pairs: Seq<Pair>, orders: Seq<Seq<Seq<TokenID>>>| #[trigger]
            is_run(words, merges as nat, pairs, orders) && rule_entries(rules) == rules_after(
                pairs,
                pairs.len() as int,
            );
        assert(merges as nat == (vocab_size - BYTE_TOKENS - 1) as nat);
        assert(is_run(words, (vocab_size - BYTE_TOKENS - 1) as nat, pairs, orders));
        lemma_rules_after(pairs, pairs.len() as int);
        if merges <= MAX_MERGES {
            law_run_is_greedy(words, merges as nat, pairs, orders);
            let learned = rule_entries(rules);
            assert forall|k: int, p: Pair|
                #![trigger pair_weight(words_so_far(words, learned, k), p)]
                0 <= k < learned.len() implies ({
                let now = words_so_far(words, learned, k);
                let chosen = learned[k].0;
                &&& pair_weight(now, p) <= pair_weight(now, chosen)
                &&& pair_weight(now, p) == pair_weight(now, chosen) ==> p.0 < chosen.0 || (p.0
                    == chosen.0 && p.1 <= chosen.1)
            }) by {
                law_most_frequent_pair_is_merged(words, merges as nat, k);
            }
        }
    }
    rules
}

// ---------------------------------------------------------------------------
// Laws
// ---------------------------------------------------------------------------

/// A tally counts each word as often as it occurs.
pub proof fn law_tally_counts_words(words: Seq<Seq<char>>, word: Seq<char>)
    requires
        words.len() <= usize::MAX,
    ensures
        unique_keys(tallied(Seq::empty(), words)),
        lookup_or(tallied(Seq::empty(), words), word, 0) == words.to_multiset().count(word),
        has_key(tallied(Seq::empty(), words), word) <==> words.contains(word),
        words.to_multiset().count(word) <= words.len(),
    decreases words.len(),
{
    broadcast use vstd::seq_lib::group_to_multiset_ensures;

    if words.len() > 0 {
        let shorter = words.drop_last();
        let last = words.last();
        let before = tallied(Seq::empty(), shorter);
        law_tally_counts_words(shorter, word);
        law_tally_counts_words(shorter, last);
        assert(words == shorter.push(last));
        lemma_put(before, last, (lookup_or(before, last, 0) + 1) as usize);
        assert(words.contains(word) <==> word == last || shorter.contains(word)) by {
            if shorter.contains(word) {
                let i = shorter.index_of(word);
                assert(words[i] == word);
            }
            if word == last {
                assert(words[words.len() - 1] == word);
            }
        }
    } else {
        assert(words.to_multiset().len() == 0);
    }
}

/// What adding one tally to another does to each word.
proof fn lemma_absorbed(tally: Tally, other: Tally)
    requires
        unique_keys(tally),
        unique_keys(other),
    ensures
        unique_keys(absorbed(tally, other)),
        forall|w: Seq<char>| #[trigger]
            has_key(absorbed(tally, other), w) <==> has_key(tally, w) || has_key(other, w),
        forall|w: Seq<char>| #[trigger]
            lookup_or(tally, w, 0) + lookup_or(other, w, 0) <= usize::MAX ==> lookup_or(
                absorbed(tally, other),
                w,
                0,
            ) == lookup_or(tally, w, 0) + lookup_or(other, w, 0),
    decreases other.len(),
{
    if other.len() > 0 {
        let rest = other.drop_last();
        let (word, count) = other.last();
        assert(unique_keys(rest)) by {
            assert forall|i: int, j: int| 0 <= i < j < rest.len() implies (#[trigger] rest[i]).0
                != (#[trigger] rest[j]).0 by {
                assert(other[i].0 != other[j].0);
            }
        }
        lemma_absorbed(tally, rest);
        let before = absorbed(tally, rest);
        lemma_put(before, word, (lookup_or(before, word, 0) + count) as usize);
        lemma_position(other, other.len() - 1);
        assert(!has_key(rest, word)) by {
            if has_key(rest, word) {
                let p = position(rest, word);
                assert(rest[p].0 == word);
                assert(other[p].0 != other[other.len() - 1].0);
            }
        }
        assert forall|w: Seq<char>| w != word implies #[trigger] lookup(other, w) == lookup(
            rest,
            w,
        ) by {
            if has_key(rest, w) {
                let p = position(rest, w);
                assert(rest[p].0 == w);
                assert(other[p] == rest[p]);
                lemma_position(other, p);
                lemma_position(rest, p);
            } else if has_key(other, w) {
                let p = position(other, w);
                assert(other[p].0 == w);
                assert(rest[p].0 == w);
            }
        }
        assert forall|w: Seq<char>| #[trigger]
            lookup_or(tally, w, 0) + lookup_or(other, w, 0) <= usize::MAX implies lookup_or(
            absorbed(tally, other),
            w,
            0,
        ) == lookup_or(tally, w, 0) + lookup_or(other, w, 0) by {
            if w != word {
                assert(lookup(other, w) == lookup(rest, w));
                assert(lookup_or(tally, w, 0) + lookup_or(rest, w, 0) <= usize::MAX);
            } else {
                assert(lookup_or(rest, w, 0) == 0);
                assert(lookup_or(tally, w, 0) + lookup_or(rest, w, 0) <= usize::MAX);
            }
        }
        assert forall|w: Seq<char>| #[trigger]
            has_key(absorbed(tally, other), w) <==> has_key(tally, w) || has_key(other, w) by {
            if w != word {
                assert(lookup(other, w) == lookup(rest, w));
            }
        }
    }
}

/// Adding tallies of two lists of words counts both.
proof fn lemma_counts_absorbed(
    tally: Tally,
    a: Seq<Seq<char>>,
    other: Tally,
    b: Seq<Seq<char>>,
)
    requires
        tally_valid(tally),
        tally_valid(other),
        text_size(tally) + text_size(other) <= usize::MAX,
        counts_words(tally, a),
        counts_words(other, b),
    ensures
        counts_words(absorbed(tally, other), a + b),
{
    broadcast use vstd::seq_lib::group_to_multiset_ensures;

    let after = absorbed(tally, other);
    lemma_absorbed(tally, other);
    vstd::seq_lib::lemma_multiset_commutative(a, b);
    assert forall|word: Seq<char>| #[trigger]
        lookup_or(after, word, 0) == (a + b).to_multiset().count(word) by {
        lemma_count_bound(tally, word);
        lemma_count_bound(other, word);
        assert(lookup_or(tally, word, 0) + lookup_or(other, word, 0) <= usize::MAX);
    }
    assert forall|word: Seq<char>| #[trigger] has_key(after, word) <==> (a + b).contains(word) by {
        assert(has_key(tally, word) <==> a.contains(word));
        assert(has_key(other, word) <==> b.contains(word));
        if a.contains(word) {
            let i = a.index_of(word);
            assert((a + b)[i] == word);
        }
        if b.contains(word) {
            let i = b.index_of(word);
            assert((a + b)[a.len() + i] == word);
        }
        if (a + b).contains(word) {
            let i = (a + b).index_of(word);
            if i < a.len() {
                assert(a[i] == word);
            } else {
                assert(b[i - a.len()] == word);
            }
        }
    }
}

/// Adding a tally in which a word was counted once more is adding the tally and
/// counting the word.
proof fn lemma_absorb_one_more(tally: Tally, other: Tally, word: Seq<char>)
    requires
        unique_keys(tally),
        unique_keys(other),
        lookup_or(tally, word, 0) + lookup_or(other, word, 0) + 1 <= usize::MAX,
    ensures
        absorbed(tally, added(other, word, 1)) == added(absorbed(tally, other), word, 1),
    decreases other.len(),
{
    if !has_key(other, word) {
        assert(added(other, word, 1).drop_last() == other);
        assert(added(other, word, 1).last() == (word, 1usize));
    } else {
        let p = position(other, word);
        assert(other[p].0 == word);
        lemma_position(other, p);
        let count = other[p].1;
        let rest = other.drop_last();
        let (last, n) = other.last();
        let changed = added(other, word, 1);
        assert(changed == other.update(p, (word, (count + 1) as usize)));
        assert(unique_keys(rest)) by {
            assert forall|i: int, j: int| 0 <= i < j < rest.len() implies (#[trigger] rest[i]).0
                != (#[trigger] rest[j]).0 by {
                assert(other[i].0 != other[j].0);
            }
        }
        let before = absorbed(tally, rest);
        lemma_absorbed(tally, rest);
        if p == other.len() - 1 {
            assert(changed.drop_last() == rest);
            assert(!has_key(rest, word)) by {
                if has_key(rest, word) {
                    let q = position(rest, word);
                    assert(rest[q].0 == word);
                    assert(other[q].0 != other[p].0);
                }
            }
            assert(lookup_or(tally, word, 0) + lookup_or(rest, word, 0) <= usize::MAX);
            let have = lookup_or(before, word, 0);
            assert(have == lookup_or(tally, word, 0));
            lemma_put(before, word, (have + count) as usize);
            lemma_put_again(
                before,
                word,
                (have + count) as usize,
                (have + count + 1) as usize,
            );
        } else {
            assert(rest[p] == other[p]);
            lemma_position(rest, p);
            assert(last != word) by {
                assert(other[p].0 != other[other.len() - 1].0);
            }
            lemma_absorb_one_more(tally, rest, word);
            assert(changed.drop_last() == added(rest, word, 1));
            assert(changed.last() == (last, n));
            assert(has_key(before, word));
            let x = (lookup_or(before, word, 0) + 1) as usize;
            let y = (lookup_or(before, last, 0) + n) as usize;
            lemma_put(before, word, x);
            lemma_put(before, last, y);
            lemma_put_swap(before, word, x, last, y);
        }
    }
}

/// Counting two lists of words apart and adding the counts is counting one list
/// after the other, down to the order in which the words are kept.
pub proof fn law_absorbing_is_counting(a: Seq<Seq<char>>, b: Seq<Seq<char>>)
    requires
        a.len() + b.len() <= usize::MAX,
    ensures
        absorbed(tallied(Seq::empty(), a), tallied(Seq::empty(), b)) == tallied(
            Seq::empty(),
            a + b,
        ),
    decreases b.len(),
{
    if b.len() == 0 {
        assert(a + b == a);
    } else {
        let shorter = b.drop_last();
        let word = b.last();
        law_absorbing_is_counting(a, shorter);
        assert((a + b).drop_last() == a + shorter);
        assert((a + b).last() == word);
        law_tally_counts_words(a, word);
        law_tally_counts_words(shorter, word);
        lemma_absorb_one_more(tallied(Seq::empty(), a), tallied(Seq::empty(), shorter), word);
    }
}

/// However the words of a corpus are dealt out to tasks, in order, adding up the
/// counts of all tasks is counting all words one after the other.
pub proof fn law_counting_ignores_grouping(groups: Seq<Seq<Seq<char>>>)
    requires
        groups.flatten().len() <= usize::MAX,
    ensures
        absorbed_all(
            Seq::empty(),
            groups.map_values(|words: Seq<Seq<char>>| tallied(Seq::empty(), words)),
        ) == tallied(Seq::empty(), groups.flatten()),
    decreases groups.len(),
{
    let f = |words: Seq<Seq<char>>| tallied(Seq::empty(), words);
    let all = groups.map_values(f);
    if groups.len() > 0 {
        let shorter = groups.drop_last();
        assert(groups == shorter.push(groups.last()));
        shorter.lemma_flatten_push(groups.last());
        assert(all.drop_last() == shorter.map_values(f));
        assert(all.last() == tallied(Seq::empty(), groups.last()));
        law_counting_ignores_grouping(shorter);
        law_absorbing_is_counting(shorter.flatten(), groups.last());
    }
}

/// Counting words in two steps is counting all of them.
pub proof fn law_tally_concat(tally: Tally, a: Seq<Seq<char>>, b: Seq<Seq<char>>)
    ensures
        tallied(tallied(tally, a), b) == tallied(tally, a + b),
    decreases b.len(),
{
    if b.len() == 0 {
        assert(a + b == a);
    } else {
        law_tally_concat(tally, a, b.drop_last());
        assert((a + b).drop_last() == a + b.drop_last());
    }
}

/// The words of a chunk of a file.
pub open spec fn chunk_words(chunk: Seq<u8>) -> Seq<Seq<char>> {
    match pretokens(lossy_text(chunk)) {
        Some(words) => words,
        None => Seq::empty(),
    }
}

/// The words of chunks, one after the other.
pub open spec fn words_of_chunks(chunks: Seq<Seq<u8>>) -> Seq<Seq<char>> {
    chunks.map_values(|chunk: Seq<u8>| chunk_words(chunk)).flatten()
}

/// The words of two lists of chunks.
proof fn lemma_words_of_chunks(a: Seq<Seq<u8>>, b: Seq<Seq<u8>>)
    ensures
        words_of_chunks(a + b) == words_of_chunks(a) + words_of_chunks(b),
{
    let f = |chunk: Seq<u8>| chunk_words(chunk);
    assert((a + b).map_values(f) == a.map_values(f) + b.map_values(f));
    vstd::seq_lib::lemma_flatten_concat(a.map_values(f), b.map_values(f));
}

/// The words of all chunks are those of each group, one after the other.
proof fn lemma_words_of_groups(groups: Seq<Seq<Seq<u8>>>)
    ensures
        groups.map_values(|chunks: Seq<Seq<u8>>| words_of_chunks(chunks)).flatten()
            == words_of_chunks(groups.flatten()),
    decreases groups.len(),
{
    let g = |chunks: Seq<Seq<u8>>| words_of_chunks(chunks);
    let f = |chunk: Seq<u8>| chunk_words(chunk);
    if groups.len() == 0 {
        assert(groups.map_values(g) == Seq::<Seq<Seq<char>>>::empty());
        assert(groups.flatten().map_values(f) == Seq::<Seq<Seq<char>>>::empty());
    } else {
        let shorter = groups.drop_last();
        lemma_words_of_groups(shorter);
        assert(groups == shorter.push(groups.last()));
        shorter.lemma_flatten_push(groups.last());
        lemma_words_of_chunks(shorter.flatten(), groups.last());
        assert(groups.map_values(g) == shorter.map_values(g).push(g(groups.last())));
        shorter.map_values(g).lemma_flatten_push(g(groups.last()));
    }
}

/// However the chunks of a file are dealt out to tasks, in order, adding up the
/// counts of all tasks gives the count of the words of the whole file.
pub proof fn law_tasks_count_the_file(chunks: Seq<Seq<u8>>, groups: Seq<Seq<Seq<u8>>>)
    requires
        groups.flatten() == chunks,
        words_of_chunks(chunks).len() <= usize::MAX,
    ensures
        absorbed_all(
            Seq::empty(),
            groups.map_values(
                |group: Seq<Seq<u8>>| tallied(Seq::empty(), words_of_chunks(group)),
            ),
        ) == tallied(Seq::empty(), words_of_chunks(chunks)),
{
    let g = |group: Seq<Seq<u8>>| words_of_chunks(group);
    let t = |words: Seq<Seq<char>>| tallied(Seq::empty(), words);
    let both = |group: Seq<Seq<u8>>| tallied(Seq::empty(), words_of_chunks(group));
    lemma_words_of_groups(groups);
    law_counting_ignores_grouping(groups.map_values(g));
    assert(groups.map_values(both) == groups.map_values(g).map_values(t));
}

// ---------------------------------------------------------------------------
// Order and repetition of documents
// ---------------------------------------------------------------------------

/// The sum of a measure over documents.
spec fn doc_sum(docs: Seq<Seq<u8>>, measure: spec_fn(Seq<u8>) -> nat) -> nat
    decreases docs.len(),
{
    if docs.len() == 0 {
        0
    } else {
        doc_sum(docs.drop_last(), measure) + measure(docs.last())
    }
}

/// The documents `n` times over.
spec fn copies(docs: Seq<Seq<u8>>, n: nat) -> Seq<Seq<u8>>
    decreases n,
{
    if n == 0 {
        Seq::empty()
    } else {
        copies(docs, (n - 1) as nat) + docs
    }
}

/// The sum over two lists of documents.
proof fn lemma_doc_sum_concat(
    a: Seq<Seq<u8>>,
    b: Seq<Seq<u8>>,
    measure: spec_fn(Seq<u8>) -> nat,
)
    ensures
        doc_sum(a + b, measure) == doc_sum(a, measure) + doc_sum(b, measure),
    decreases b.len(),
{
    if b.len() == 0 {
        assert(a + b == a);
    } else {
        assert((a + b).drop_last() == a + b.drop_last());
        lemma_doc_sum_concat(a, b.drop_last(), measure);
    }
}

/// The sum does not depend on the order of the documents.
proof fn lemma_doc_sum_order(
    a: Seq<Seq<u8>>,
    b: Seq<Seq<u8>>,
    measure: spec_fn(Seq<u8>) -> nat,
)
    requires
        a.to_multiset() == b.to_multiset(),
    ensures
        doc_sum(a, measure) == doc_sum(b, measure),
    decreases a.len(),
{
    broadcast use vstd::seq_lib::group_to_multiset_ensures;

    assert(a.to_multiset().len() == a.len() && b.to_multiset().len() == b.len());
    if a.len() > 0 {
        let doc = a.last();
        assert(a.contains(doc));
        assert(b.to_multiset().count(doc) > 0);
        let i = b.index_of(doc);
        let head = b.take(i);
        let tail = b.skip(i + 1);
        assert(b == head + (seq![doc] + tail));
        assert(b.remove(i) == head + tail);
        assert(a.remove(a.len() - 1) == a.drop_last());
        lemma_doc_sum_order(a.drop_last(), head + tail, measure);
        lemma_doc_sum_concat(head, seq![doc] + tail, measure);
        lemma_doc_sum_concat(seq![doc], tail, measure);
        lemma_doc_sum_concat(head, tail, measure);
        assert(seq![doc].drop_last() == Seq::<Seq<u8>>::empty());
        assert(doc_sum(seq![doc].drop_last(), measure) == 0);
        assert(doc_sum(seq![doc], measure) == measure(doc));
        assert(doc_sum(a, measure) == doc_sum(a.drop_last(), measure) + measure(doc));
    }
}

/// How often a document is among the copies, and the sum over these.
proof fn lemma_copies(
    docs: Seq<Seq<u8>>,
    n: nat,
    doc: Seq<u8>,
    measure: spec_fn(Seq<u8>) -> nat,
)
    ensures
        copies(docs, n).to_multiset().count(doc) == n * docs.to_multiset().count(doc),
        doc_sum(copies(docs, n), measure) == n * doc_sum(docs, measure),
    decreases n,
{
    broadcast use vstd::seq_lib::group_to_multiset_ensures;

    let c = docs.to_multiset().count(doc);
    let x = doc_sum(docs, measure);
    if n == 0 {
        assert(!copies(docs, n).contains(doc));
        assert(0 * c == 0 && 0 * x == 0) by (nonlinear_arith);
    } else {
        let m = (n - 1) as nat;
        lemma_copies(docs, m, doc, measure);
        vstd::seq_lib::lemma_multiset_commutative(copies(docs, m), docs);
        lemma_doc_sum_concat(copies(docs, m), docs, measure);
        assert((n - 1) * c + c == n * c) by (nonlinear_arith);
        assert((n - 1) * x + x == n * x) by (nonlinear_arith);
    }
}

/// One list holds the documents of the other in any order, each `n` times as often.
pub open spec fn repeats(a: Seq<Seq<u8>>, b: Seq<Seq<u8>>, n: nat) -> bool {
    forall|doc: Seq<u8>| #[trigger]
        b.to_multiset().count(doc) == n * a.to_multiset().count(doc)
}

/// The sum over repeated documents.
proof fn lemma_doc_sum_repeated(
    a: Seq<Seq<u8>>,
    b: Seq<Seq<u8>>,
    n: nat,
    measure: spec_fn(Seq<u8>) -> nat,
)
    requires
        repeats(a, b, n),
    ensures
        doc_sum(b, measure) == n * doc_sum(a, measure),
{
    let all = copies(a, n);
    assert forall|doc: Seq<u8>| #[trigger]
        all.to_multiset().count(doc) == b.to_multiset().count(doc) by {
        lemma_copies(a, n, doc, measure);
        assert(b.to_multiset().count(doc) == n * a.to_multiset().count(doc));
    }
    assert(all.to_multiset() =~= b.to_multiset());
    lemma_copies(a, n, Seq::empty(), measure);
    lemma_doc_sum_order(all, b, measure);
}

/// How often a word is among those of documents.
proof fn lemma_doc_words(docs: Seq<Seq<u8>>, word: Seq<char>)
    ensures
        words_of_chunks(docs).to_multiset().count(word) == doc_sum(
            docs,
            |doc: Seq<u8>| chunk_words(doc).to_multiset().count(word),
        ),
    decreases docs.len(),
{
    broadcast use vstd::seq_lib::group_to_multiset_ensures;

    let f = |chunk: Seq<u8>| chunk_words(chunk);
    if docs.len() == 0 {
        assert(docs.map_values(f) == Seq::<Seq<Seq<char>>>::empty());
        assert(!words_of_chunks(docs).contains(word));
    } else {
        let shorter = docs.drop_last();
        let last = docs.last();
        lemma_doc_words(shorter, word);
        assert(docs.map_values(f) == shorter.map_values(f).push(f(last)));
        shorter.map_values(f).lemma_flatten_push(f(last));
        vstd::seq_lib::lemma_multiset_commutative(words_of_chunks(shorter), chunk_words(last));
    }
}

/// The words as bytes are found under their own bytes.
proof fn lemma_byte_lookup(tally: Tally, word: Seq<char>)
    requires
        unique_keys(tally),
    ensures
        unique_keys(byte_words(tally)),
        lookup(byte_words(tally), byte_tokens(encode_utf8(word))) == lookup(tally, word),
{
    let words = byte_words(tally);
    let key = byte_tokens(encode_utf8(word));
    assert forall|i: int, j: int| 0 <= i < j < words.len() implies (#[trigger] words[i]).0 != (
    #[trigger] words[j]).0 by {
        assert(tally[i].0 != tally[j].0);
        if words[i].0 == words[j].0 {
            lemma_same_bytes(tally[i].0, tally[j].0);
        }
    }
    if has_key(words, key) {
        let p = position(words, key);
        assert(words[p].0 == key);
        lemma_same_bytes(tally[p].0, word);
        lemma_position(tally, p);
        lemma_position(words, p);
    } else if has_key(tally, word) {
        let p = position(tally, word);
        assert(tally[p].0 == word);
        assert(words[p].0 == key);
    }
}

/// Tallies that agree on every word hold the same words as bytes.
proof fn lemma_same_tallies(a: Tally, b: Tally)
    requires
        unique_keys(a),
        unique_keys(b),
        forall|word: Seq<char>| #[trigger] lookup(a, word) == lookup(b, word),
    ensures
        same_words(byte_words(a), byte_words(b)),
{
    let x = byte_words(a);
    let y = byte_words(b);
    lemma_byte_lookup(a, Seq::empty());
    lemma_byte_lookup(b, Seq::empty());
    assert forall|key: Seq<TokenID>| #[trigger] lookup(x, key) == lookup(y, key) by {
        if has_key(x, key) {
            let p = position(x, key);
            assert(x[p].0 == key);
            lemma_byte_lookup(a, a[p].0);
            lemma_byte_lookup(b, a[p].0);
            assert(lookup(a, a[p].0) == lookup(b, a[p].0));
        } else if has_key(y, key) {
            let p = position(y, key);
            assert(y[p].0 == key);
            lemma_byte_lookup(a, b[p].0);
            lemma_byte_lookup(b, b[p].0);
            assert(lookup(a, b[p].0) == lookup(b, b[p].0));
        }
    }
}

/// The tally holds each word of a file as often as it occurs there.
pub open spec fn counts_file(tally: Tally, file: Seq<u8>) -> bool {
    counts_words(tally, words_of_chunks(file_chunks(file)))
}

/// What words that occur `n` times as often teach.
proof fn lemma_repeated_words(
    x: Tally,
    a: Seq<Seq<char>>,
    y: Tally,
    b: Seq<Seq<char>>,
    n: nat,
    merges: nat,
)
    requires
        n >= 1,
        counts_words(x, a),
        counts_words(y, b),
        forall|word: Seq<char>| #[trigger]
            b.to_multiset().count(word) == n * a.to_multiset().count(word),
    ensures
        greedy_rules(byte_words(x), 0, merges) == greedy_rules(byte_words(y), 0, merges),
{
    broadcast use vstd::seq_lib::group_to_multiset_ensures;

    let z: Tally = Seq::new(x.len(), |i: int| (x[i].0, (n * x[i].1) as usize));
    assert forall|i: int| 0 <= i < x.len() implies (#[trigger] z[i]).0 == x[i].0 && z[i].1 == n
        * x[i].1 by {
        lemma_position(x, i);
        assert(lookup_or(x, x[i].0, 0) == a.to_multiset().count(x[i].0));
        assert(lookup_or(y, x[i].0, 0) == b.to_multiset().count(x[i].0));
        assert(b.to_multiset().count(x[i].0) == n * a.to_multiset().count(x[i].0));
    }
    assert(unique_keys(z)) by {
        assert forall|i: int, j: int| 0 <= i < j < z.len() implies (#[trigger] z[i]).0 != (
        #[trigger] z[j]).0 by {
            assert(x[i].0 != x[j].0);
        }
    }
    assert forall|word: Seq<char>| #[trigger] lookup(z, word) == lookup(y, word) by {
        let c = a.to_multiset().count(word);
        assert(lookup_or(x, word, 0) == c);
        assert(lookup_or(y, word, 0) == b.to_multiset().count(word));
        assert(has_key(x, word) <==> a.contains(word));
        assert(has_key(y, word) <==> b.contains(word));
        assert(b.to_multiset().count(word) == n * c);
        assert(n * c > 0 <==> c > 0) by (nonlinear_arith)
            requires
                n >= 1,
        ;
        if has_key(x, word) {
            let p = position(x, word);
            assert(x[p].0 == word);
            lemma_position(x, p);
            assert(z[p].0 == word && z[p].1 == n * x[p].1);
            lemma_position(z, p);
        } else if has_key(z, word) {
            let p = position(z, word);
            assert(z[p].0 == word);
            assert(x[p].0 == word);
        }
    }
    lemma_same_tallies(z, y);
    law_rules_ignore_word_order(byte_words(z), byte_words(y), merges);
    let small = byte_words(x);
    let large = byte_words(z);
    assert forall|i: int| 0 <= i < small.len() implies (#[trigger] large[i]).0 == small[i].0
        && large[i].1 == n * small[i].1 by {
        assert(z[i].0 == x[i].0 && z[i].1 == n * x[i].1);
    }
    law_rules_ignore_scale(small, large, n, merges);
}

/// What is learned from a file that ends with an end token is also learned from a
/// file that holds its documents in any other order, each repeated the same number
/// of times, however the words of each were counted: documents never merge into
/// one another, and only how often words occur relative to each other matters.
pub proof fn law_training_ignores_order_and_repetition(
    file: Seq<u8>,
    tally: Tally,
    docs: Seq<Seq<u8>>,
    docs_tally: Tally,
    n: nat,
    merges: nat,
)
    requires
        n >= 1,
        file_ends(file),
        repeats(file_chunks(file), docs, n),
        counts_file(tally, file),
        counts_file(docs_tally, docs.flatten()),
    ensures
        file_chunks(docs.flatten()) == docs,
        greedy_rules(byte_words(tally), 0, merges) == greedy_rules(
            byte_words(docs_tally),
            0,
            merges,
        ),
{
    broadcast use vstd::seq_lib::group_to_multiset_ensures;

    let first = file_chunks(file);
    law_ended_file_has_ended_chunks(file);
    assert forall|i: int| 0 <= i < docs.len() implies ends_once(#[trigger] docs[i]) by {
        assert(docs.contains(docs[i]));
        let c = first.to_multiset().count(docs[i]);
        assert(docs.to_multiset().count(docs[i]) == n * c);
        assert(n * c > 0 ==> c > 0) by (nonlinear_arith);
        assert(first.contains(docs[i]));
        let k = first.index_of(docs[i]);
        assert(ends_once(first[k]));
    }
    law_documents_stay_apart(docs);
    let a = words_of_chunks(first);
    let b = words_of_chunks(docs);
    assert forall|word: Seq<char>| #[trigger]
        b.to_multiset().count(word) == n * a.to_multiset().count(word) by {
        lemma_doc_words(first, word);
        lemma_doc_words(docs, word);
        lemma_doc_sum_repeated(
            first,
            docs,
            n,
            |doc: Seq<u8>| chunk_words(doc).to_multiset().count(word),
        );
    }
    lemma_repeated_words(tally, a, docs_tally, b, n, merges);
}

/// Every counted word is learned from as its bytes, as often as it was counted, and
/// nothing else is.
pub proof fn law_words_are_learned_as_their_bytes(tally: Tally, i: int)
    requires
        0 <= i < tally.len(),
    ensures
        byte_words(tally).len() == tally.len(),
        byte_words(tally)[i].0.len() == encode_utf8(tally[i].0).len(),
        forall|j: int|
            0 <= j < encode_utf8(tally[i].0).len() ==> #[trigger] byte_words(tally)[i].0[j]
                == encode_utf8(tally[i].0)[j] as int,
        byte_words(tally)[i].1 == tally[i].1,
{
}

/// A word of the corpus is encoded as learning left it: what all rules make of its
/// bytes is what the words had become when the last rule was learned.
pub proof fn law_corpus_words_are_encoded_as_learned(
    tally: Tally,
    rules: Seq<(Pair, TokenID)>,
    i: int,
)
    requires
        0 <= i < tally.len(),
    ensures
        words_so_far(byte_words(tally), rules, rules.len() as int)[i] == (
            word_ids(rules, tally[i].0),
            tally[i].1,
        ),
{
}

/// The words of a tally stand in the order in which they first occur: one that is
/// counted again keeps its place, a new one comes last.
pub proof fn law_words_stand_in_order_of_first_occurrence(
    words: Seq<Seq<char>>,
    word: Seq<char>,
)
    requires
        words.len() < usize::MAX,
    ensures
        ({
            let before = tallied(Seq::empty(), words);
            let after = tallied(Seq::empty(), words.push(word));
            &&& after.len() == before.len() + if words.contains(word) {
                0int
            } else {
                1
            }
            &&& forall|i: int| 0 <= i < before.len() ==> (#[trigger] after[i]).0 == before[i].0
            &&& !words.contains(word) ==> after.last() == (word, 1usize)
        }),
{
    let before = tallied(Seq::empty(), words);
    law_tally_counts_words(words, word);
    assert(words.push(word).drop_last() == words);
    assert(words.push(word).last() == word);
    if has_key(before, word) {
        let p = position(before, word);
        assert(before[p].0 == word);
    }
}

/// A task counts as many stretches as it takes to deal out all of them to eight tasks
/// for each thread, and no more.
pub proof fn law_tasks_take_all_stretches(ranges: usize, threads: usize, size: usize)
    requires
        0 < threads,
        threads * 8 <= usize::MAX,
        call_ensures(ranges_per_task, (ranges, threads), size),
    ensures
        size >= 1,
        size * (threads * 8) >= ranges,
        size > 1 ==> (size - 1) * (threads * 8) < ranges,
{
    lemma_ceil_div(ranges as int, threads * 8);
}

/// A larger vocabulary keeps the rules of a smaller one and adds more behind them, from
/// the same words. There are never more rules than the vocabulary has room for besides
/// the bytes and the end token.
pub proof fn law_larger_vocabulary_keeps_the_rules(
    counts: WordCounts,
    small: usize,
    large: usize,
    few: IndexMap<(TokenID, TokenID), TokenID>,
    many: IndexMap<(TokenID, TokenID), TokenID>,
)
    requires
        counts.wf(),
        small <= large <= 65537,
        call_ensures(train_bpe, (&counts, small), few),
        call_ensures(train_bpe, (&counts, large), many),
    ensures
        rule_entries(few).is_prefix_of(rule_entries(many)),
        rule_entries(few).len() > 0 ==> rule_entries(few).len() <= small - 257,
        rule_entries(few).len() < rule_entries(many).len() ==> rule_entries(few).len() == if small
            > 257 {
            small - 257
        } else {
            0
        },
{
    if small > 257 {
        let words = byte_words(counts@);
        let m = (small - 257) as nat;
        let n = (large - 257) as nat;
        law_more_merges_keep_the_first_rules(words, m, n);
        lemma_byte_words(counts@);
        if rule_entries(few).len() < rule_entries(many).len() && rule_entries(few).len() < m {
            let k = rule_entries(few).len() as int;
            law_learning_stops_where_no_pair_is_left(words, m, rule_entries(many)[k].0);
            law_most_frequent_pair_is_merged(words, n, k);
            lemma_same_prefix(words, rule_entries(few), rule_entries(many), k);
        }
    } else {
        assert(rule_entries(few) == rule_entries(many).take(0));
    }
}

/// What the first rules leave of words depends on these rules alone.
proof fn lemma_same_prefix(
    words: Counted,
    a: Seq<(Pair, TokenID)>,
    b: Seq<(Pair, TokenID)>,
    k: int,
)
    requires
        0 <= k <= a.len(),
        a.is_prefix_of(b),
    ensures
        words_so_far(words, a, k) == words_so_far(words, b, k),
{
    assert forall|i: int| 0 <= i < words.len() implies words_so_far(words, a, k)[i]
        == words_so_far(words, b, k)[i] by {
        lemma_same_rules(words[i].0, a, b, k);
    }
}

/// What the first rules leave of tokens depends on these rules alone.
proof fn lemma_same_rules(
    ids: Seq<TokenID>,
    a: Seq<(Pair, TokenID)>,
    b: Seq<(Pair, TokenID)>,
    k: int,
)
    requires
        0 <= k <= a.len(),
        a.is_prefix_of(b),
    ensures
        apply_rules(ids, a, k) == apply_rules(ids, b, k),
    decreases k,
{
    if k > 0 {
        lemma_same_rules(ids, a, b, k - 1);
        assert(a == b.take(a.len() as int));
        assert(a[k - 1] == b[k - 1]);
    }
}

} // verus!

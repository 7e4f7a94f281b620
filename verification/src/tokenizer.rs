//! The tokenizer: from text to tokens by merge rules, and back.

use indexmap::IndexMap;
use vstd::prelude::*;
use vstd::slice::slice_to_vec;
use vstd::utf8::{encode_utf8, encode_utf8_decode_utf8, encode_utf8_valid_utf8, valid_utf8};

use crate::bpe::{
    law_tokens_are_numbered_in_order, merge_id, well_numbered, BYTE_TOKENS, MAX_MERGES,
};
use crate::cbor::{cbor_rules, read_rules};
use crate::ordered::{
    byte_entries, bytes_get, bytes_insert, bytes_len, bytes_new, has_key, lemma_position,
    lemma_put, lookup, lookup_or, position, put, rule_entries, rules_clone, rules_get_index,
    rules_len, unique_keys, TokenID,
};
use crate::pairs::{
    byte_tokens, encode_text, law_merged_pair_is_gone, lemma_merge_adjacent, lemma_merge_shrinks,
    lemma_merge_tokens, lemma_occurrences, merge, merged, occurrences, pair_at, Pair,
};
use crate::parts::{
    border_free, joined, law_end_token_ends_the_last_part, law_end_token_separates,
    law_parts_make_up_the_text, lemma_joined_concat, lemma_joined_one, parts_view, split_parts,
    text_parts, whole_part, Part,
};
use crate::pattern::{find_all, pretokenize, pretokens, texts, PRETOKEN_PATTERN};
use crate::search::{
    first_occurrence, is_first, lemma_encode_concat, lemma_encode_len, lemma_first_occurrence,
    occurs_at,
};
use crate::text::{decode_lossy, law_valid_bytes_are_read_as_written, lossy_text};

verus! {

/// What separates the texts of a corpus.
pub const END_TOKEN: &'static str = "<|endoftext|>";

/// A tokenizer.
pub struct BPETokenizer {
    merge_rules: IndexMap<(TokenID, TokenID), TokenID>,
    id_to_bytes: IndexMap<TokenID, Vec<u8>>,
    vocab_size: usize,
    end_token: String,
    pub end_token_id: TokenID,
}

/// Why merge rules could not be loaded.
#[derive(Clone, Copy, Debug, PartialEq, Eq, Structural)]
pub enum LoadError {
    /// The bytes hold no merge rules.
    Malformed,
    /// A rule merges a token that no earlier rule made.
    UnknownPart,
}

// ---------------------------------------------------------------------------
// From text to tokens
// ---------------------------------------------------------------------------

/// The tokens after the first `k` rules were applied, one after the other.
pub open spec fn apply_rules(ids: Seq<TokenID>, rules: Seq<(Pair, TokenID)>, k: int) -> Seq<TokenID>
    decreases k,
{
    if k <= 0 {
        ids
    } else {
        merged(apply_rules(ids, rules, k - 1), rules[k - 1].0, rules[k - 1].1)
    }
}

/// The tokens of one word: its bytes, with all rules applied.
pub open spec fn word_ids(rules: Seq<(Pair, TokenID)>, word: Seq<char>) -> Seq<TokenID> {
    apply_rules(byte_tokens(encode_utf8(word)), rules, rules.len() as int)
}

/// The tokens of words, one after the other.
pub open spec fn words_ids(rules: Seq<(Pair, TokenID)>, words: Seq<Seq<char>>) -> Seq<TokenID> {
    words.map_values(|word: Seq<char>| word_ids(rules, word)).flatten()
}

/// The tokens of a text without end tokens.
pub open spec fn plain_ids(rules: Seq<(Pair, TokenID)>, text: Seq<char>) -> Seq<TokenID> {
    match pretokens(text) {
        Some(words) => words_ids(rules, words),
        None => Seq::empty(),
    }
}

/// The tokens of a part of a text, with the end token where it follows.
pub open spec fn part_ids(
    rules: Seq<(Pair, TokenID)>,
    end_token_id: TokenID,
    part: Part,
) -> Seq<TokenID> {
    if part.1 {
        plain_ids(rules, part.0).push(end_token_id)
    } else {
        plain_ids(rules, part.0)
    }
}

/// The tokens of parts, one after the other.
pub open spec fn parts_ids(
    rules: Seq<(Pair, TokenID)>,
    end_token_id: TokenID,
    parts: Seq<Part>,
) -> Seq<TokenID> {
    parts.map_values(|part: Part| part_ids(rules, end_token_id, part)).flatten()
}

/// A part that is empty has no tokens.
pub open spec fn empty_parts_vanish(rules: Seq<(Pair, TokenID)>, parts: Seq<Part>) -> bool {
    forall|i: int|
        0 <= i < parts.len() && (#[trigger] parts[i]).0.len() == 0 ==> plain_ids(rules, parts[i].0)
            == Seq::<TokenID>::empty()
}

/// The tokens of a text.
pub open spec fn encoded(
    rules: Seq<(Pair, TokenID)>,
    end_token: Seq<char>,
    end_token_id: TokenID,
    text: Seq<char>,
) -> Seq<TokenID> {
    parts_ids(rules, end_token_id, text_parts(end_token, text))
}

/// The search for words is given up in none of the parts.
pub open spec fn parts_found(parts: Seq<Part>) -> bool {
    forall|i: int| 0 <= i < parts.len() ==> pretokens((#[trigger] parts[i]).0) is Some
}

/// The search for words is given up in no part of a text.
pub open spec fn encodable(end_token: Seq<char>, text: Seq<char>) -> bool {
    parts_found(text_parts(end_token, text))
}

// ---------------------------------------------------------------------------
// From tokens to bytes
// ---------------------------------------------------------------------------

/// The bytes of the tokens that stand for single bytes.
pub open spec fn byte_table() -> Seq<(TokenID, Seq<u8>)> {
    Seq::new(BYTE_TOKENS as nat, |i: int| (i as TokenID, seq![i as u8]))
}

/// The bytes of each token after the first `k` rules: a merged token has the
/// bytes of both its parts.
pub open spec fn table_after(rules: Seq<(Pair, TokenID)>, k: int) -> Seq<(TokenID, Seq<u8>)>
    decreases k,
{
    if k <= 0 {
        byte_table()
    } else {
        let before = table_after(rules, k - 1);
        let (pair, id) = rules[k - 1];
        put(
            before,
            id,
            lookup_or(before, pair.0, Seq::empty()) + lookup_or(before, pair.1, Seq::empty()),
        )
    }
}

/// Both parts of a rule are tokens that stand for bytes or were made by earlier
/// rules.
pub open spec fn rule_known(rules: Seq<(Pair, TokenID)>, k: int) -> bool {
    &&& has_key(table_after(rules, k), rules[k].0.0)
    &&& has_key(table_after(rules, k), rules[k].0.1)
}

/// Both parts of every rule are tokens that stand for bytes or were made by
/// earlier rules.
pub open spec fn rules_known(rules: Seq<(Pair, TokenID)>) -> bool {
    forall|k: int| 0 <= k < rules.len() ==> #[trigger] rule_known(rules, k)
}

/// The number of the end token: the next after those of bytes and merges.
pub open spec fn end_id(rules: Seq<(Pair, TokenID)>) -> TokenID {
    (BYTE_TOKENS + rules.len()) as TokenID
}

/// The bytes of each token, the end token among them.
pub open spec fn full_table(rules: Seq<(Pair, TokenID)>, end_token: Seq<char>) -> Seq<
    (TokenID, Seq<u8>),
> {
    put(table_after(rules, rules.len() as int), end_id(rules), encode_utf8(end_token))
}

/// Every token has bytes.
pub open spec fn decodable(table: Seq<(TokenID, Seq<u8>)>, ids: Seq<TokenID>) -> bool {
    forall|i: int| 0 <= i < ids.len() ==> has_key(table, #[trigger] ids[i])
}

/// The bytes of tokens, one after the other.
pub open spec fn spelled(table: Seq<(TokenID, Seq<u8>)>, ids: Seq<TokenID>) -> Seq<u8> {
    ids.map_values(|id: TokenID| lookup_or(table, id, Seq::empty())).flatten()
}

/// There are no more tokens than a text has bytes, and none only where it is
/// empty.
pub open spec fn fits(ids: Seq<TokenID>, text: Seq<char>) -> bool {
    &&& ids.len() <= encode_utf8(text).len()
    &&& text.len() > 0 ==> ids.len() > 0
}

/// Every token has bytes, and together they are those of a text.
pub open spec fn spells(
    table: Seq<(TokenID, Seq<u8>)>,
    ids: Seq<TokenID>,
    text: Seq<char>,
) -> bool {
    &&& decodable(table, ids)
    &&& spelled(table, ids) == encode_utf8(text)
}

/// Tokens mean what they were made for: those of bytes the bytes, those of rules
/// both parts, and the end token its text.
pub open spec fn faithful(
    rules: Seq<(Pair, TokenID)>,
    table: Seq<(TokenID, Seq<u8>)>,
    end_token: Seq<char>,
    end_token_id: TokenID,
) -> bool {
    &&& forall|b: u8| #[trigger] lookup(table, b as TokenID) == Some(seq![b])
    &&& forall|k: int|
        #![trigger rules[k]]
        0 <= k < rules.len() ==> {
            &&& has_key(table, rules[k].0.0)
            &&& has_key(table, rules[k].0.1)
            &&& lookup(table, rules[k].1) == Some(
                lookup_or(table, rules[k].0.0, Seq::empty()) + lookup_or(
                    table,
                    rules[k].0.1,
                    Seq::empty(),
                ),
            )
        }
    &&& lookup(table, end_token_id) == Some(encode_utf8(end_token))
}

/// The bytes of two sequences of tokens.
pub proof fn lemma_spelled_concat(table: Seq<(TokenID, Seq<u8>)>, a: Seq<TokenID>, b: Seq<TokenID>)
    ensures
        spelled(table, a + b) == spelled(table, a) + spelled(table, b),
{
    let f = |id: TokenID| lookup_or(table, id, Seq::empty());
    assert((a + b).map_values(f) == a.map_values(f) + b.map_values(f));
    vstd::seq_lib::lemma_flatten_concat(a.map_values(f), b.map_values(f));
}

/// The bytes of one token.
proof fn lemma_spelled_one(table: Seq<(TokenID, Seq<u8>)>, id: TokenID)
    ensures
        spelled(table, seq![id]) == lookup_or(table, id, Seq::empty()),
{
    let f = |id: TokenID| lookup_or(table, id, Seq::empty());
    let one = seq![id].map_values(f);
    assert(one == seq![f(id)]);
    one.lemma_flatten_one_element();
}

/// No tokens spell the empty text.
proof fn lemma_spells_none(table: Seq<(TokenID, Seq<u8>)>)
    ensures
        spells(table, Seq::empty(), Seq::empty()),
{
    let f = |id: TokenID| lookup_or(table, id, Seq::empty());
    assert(Seq::<TokenID>::empty().map_values(f) == Seq::<Seq<u8>>::empty());
}

/// Tokens of two texts, one after the other, are no more than both have bytes.
proof fn lemma_fits_concat(a: Seq<TokenID>, text_a: Seq<char>, b: Seq<TokenID>, text_b: Seq<char>)
    requires
        fits(a, text_a),
        fits(b, text_b),
    ensures
        fits(a + b, text_a + text_b),
{
    lemma_encode_concat(text_a, text_b);
}

/// The tokens of two lists of parts.
proof fn lemma_parts_ids_concat(
    rules: Seq<(Pair, TokenID)>,
    end_token_id: TokenID,
    a: Seq<Part>,
    b: Seq<Part>,
)
    ensures
        parts_ids(rules, end_token_id, a + b) == parts_ids(rules, end_token_id, a) + parts_ids(
            rules,
            end_token_id,
            b,
        ),
{
    let f = |part: Part| part_ids(rules, end_token_id, part);
    assert((a + b).map_values(f) == a.map_values(f) + b.map_values(f));
    vstd::seq_lib::lemma_flatten_concat(a.map_values(f), b.map_values(f));
}

/// The tokens of one part.
proof fn lemma_parts_ids_one(rules: Seq<(Pair, TokenID)>, end_token_id: TokenID, part: Part)
    ensures
        parts_ids(rules, end_token_id, seq![part]) == part_ids(rules, end_token_id, part),
{
    let f = |part: Part| part_ids(rules, end_token_id, part);
    assert(seq![part].map_values(f) == seq![f(part)]);
    seq![f(part)].lemma_flatten_one_element();
}

/// What two sequences of tokens spell, one after the other.
proof fn lemma_spells_concat(
    table: Seq<(TokenID, Seq<u8>)>,
    a: Seq<TokenID>,
    text_a: Seq<char>,
    b: Seq<TokenID>,
    text_b: Seq<char>,
)
    requires
        spells(table, a, text_a),
        spells(table, b, text_b),
    ensures
        spells(table, a + b, text_a + text_b),
{
    lemma_spelled_concat(table, a, b);
    lemma_encode_concat(text_a, text_b);
    lemma_decodable_concat(table, a, b);
}

/// Merging a pair into a token that has the bytes of both changes no bytes.
proof fn lemma_merged_spelled(
    table: Seq<(TokenID, Seq<u8>)>,
    ids: Seq<TokenID>,
    pair: Pair,
    new_id: TokenID,
)
    requires
        lookup(table, new_id) == Some(
            lookup_or(table, pair.0, Seq::empty()) + lookup_or(table, pair.1, Seq::empty()),
        ),
        decodable(table, ids),
    ensures
        spelled(table, merged(ids, pair, new_id)) == spelled(table, ids),
        decodable(table, merged(ids, pair, new_id)),
    decreases ids.len(),
{
    let all = merged(ids, pair, new_id);
    if ids.len() > 0 {
        let starts = ids.len() >= 2 && (ids[0], ids[1]) == pair;
        let step: int = if starts {
            2
        } else {
            1
        };
        let rest = ids.skip(step);
        let tail = merged(rest, pair, new_id);
        assert(decodable(table, rest)) by {
            assert forall|i: int| 0 <= i < rest.len() implies has_key(
                table,
                #[trigger] rest[i],
            ) by {
                assert(has_key(table, ids[i + step]));
            }
        }
        lemma_merged_spelled(table, rest, pair, new_id);
        let first = if starts {
            new_id
        } else {
            ids[0]
        };
        assert(all == seq![first] + tail);
        assert(has_key(table, ids[0]));
        assert(decodable(table, all)) by {
            assert forall|i: int| 0 <= i < all.len() implies has_key(table, #[trigger] all[i]) by {
                if i > 0 {
                    assert(has_key(table, tail[i - 1]));
                }
            }
        }
        lemma_spelled_concat(table, seq![first], tail);
        lemma_spelled_one(table, first);
        if starts {
            assert(ids == seq![ids[0]] + (seq![ids[1]] + rest));
            lemma_spelled_concat(table, seq![ids[0]], seq![ids[1]] + rest);
            lemma_spelled_concat(table, seq![ids[1]], rest);
            lemma_spelled_one(table, ids[0]);
            lemma_spelled_one(table, ids[1]);
            assert(spelled(table, all) == spelled(table, ids));
        } else {
            assert(ids == seq![ids[0]] + rest);
            lemma_spelled_concat(table, seq![ids[0]], rest);
        }
    }
}

/// Applying rules leaves no sequence empty that was not, makes none longer, and
/// changes no bytes.
proof fn lemma_apply_rules(
    rules: Seq<(Pair, TokenID)>,
    table: Seq<(TokenID, Seq<u8>)>,
    end_token: Seq<char>,
    end_token_id: TokenID,
    ids: Seq<TokenID>,
    k: int,
)
    requires
        0 <= k <= rules.len(),
    ensures
        ids.len() > 0 ==> apply_rules(ids, rules, k).len() > 0,
        apply_rules(ids, rules, k).len() <= ids.len(),
        faithful(rules, table, end_token, end_token_id) && decodable(table, ids) ==> spelled(
            table,
            apply_rules(ids, rules, k),
        ) == spelled(table, ids) && decodable(table, apply_rules(ids, rules, k)),
    decreases k,
{
    if k > 0 {
        lemma_apply_rules(rules, table, end_token, end_token_id, ids, k - 1);
        let before = apply_rules(ids, rules, k - 1);
        let (pair, id) = rules[k - 1];
        lemma_merge_shrinks(before, pair, id);
        if faithful(rules, table, end_token, end_token_id) && decodable(table, ids) {
            lemma_merged_spelled(table, before, pair, id);
        }
    }
}

/// The tokens of bytes have these bytes.
proof fn lemma_bytes_spelled(table: Seq<(TokenID, Seq<u8>)>, bytes: Seq<u8>)
    requires
        forall|b: u8| #[trigger] lookup(table, b as TokenID) == Some(seq![b]),
    ensures
        spelled(table, byte_tokens(bytes)) == bytes,
        decodable(table, byte_tokens(bytes)),
    decreases bytes.len(),
{
    let ids = byte_tokens(bytes);
    assert forall|i: int| 0 <= i < ids.len() implies has_key(table, #[trigger] ids[i]) by {
        assert(lookup(table, bytes[i] as TokenID) == Some(seq![bytes[i]]));
    }
    if bytes.len() > 0 {
        let shorter = bytes.drop_last();
        lemma_bytes_spelled(table, shorter);
        let last = bytes.last();
        assert(ids == byte_tokens(shorter) + seq![last as TokenID]);
        lemma_spelled_concat(table, byte_tokens(shorter), seq![last as TokenID]);
        lemma_spelled_one(table, last as TokenID);
        assert(lookup(table, last as TokenID) == Some(seq![last]));
        assert(shorter + seq![last] == bytes);
    }
}

/// Two sequences of tokens that all have bytes, one after the other.
proof fn lemma_decodable_concat(
    table: Seq<(TokenID, Seq<u8>)>,
    a: Seq<TokenID>,
    b: Seq<TokenID>,
)
    requires
        decodable(table, a),
        decodable(table, b),
    ensures
        decodable(table, a + b),
{
    assert forall|i: int| 0 <= i < (a + b).len() implies has_key(table, #[trigger] (a + b)[i]) by {
        if i < a.len() {
            assert(has_key(table, a[i]));
        } else {
            assert(has_key(table, b[i - a.len()]));
        }
    }
}

/// The tokens of one word more.
proof fn lemma_words_ids_push(
    rules: Seq<(Pair, TokenID)>,
    words: Seq<Seq<char>>,
    word: Seq<char>,
)
    ensures
        words_ids(rules, words.push(word)) == words_ids(rules, words) + word_ids(rules, word),
{
    let f = |word: Seq<char>| word_ids(rules, word);
    assert(words.push(word).map_values(f) == words.map_values(f).push(f(word)));
    words.map_values(f).lemma_flatten_push(f(word));
}

/// The tokens of words have the bytes of the words, there is a token if there is
/// a character, and there are no more tokens than bytes.
proof fn lemma_words_ids(
    rules: Seq<(Pair, TokenID)>,
    table: Seq<(TokenID, Seq<u8>)>,
    end_token: Seq<char>,
    end_token_id: TokenID,
    words: Seq<Seq<char>>,
)
    ensures
        words.flatten().len() > 0 ==> words_ids(rules, words).len() > 0,
        words_ids(rules, words).len() <= encode_utf8(words.flatten()).len(),
        faithful(rules, table, end_token, end_token_id) ==> spelled(table, words_ids(rules, words))
            == encode_utf8(words.flatten()) && decodable(table, words_ids(rules, words)),
    decreases words.len(),
{
    if words.len() == 0 {
        let f = |word: Seq<char>| word_ids(rules, word);
        assert(words.map_values(f) == Seq::<Seq<TokenID>>::empty());
        assert(words_ids(rules, words) == Seq::<TokenID>::empty());
        let g = |id: TokenID| lookup_or(table, id, Seq::empty());
        assert(Seq::<TokenID>::empty().map_values(g) == Seq::<Seq<u8>>::empty());
    } else {
        let shorter = words.drop_last();
        let word = words.last();
        assert(words == shorter.push(word));
        shorter.lemma_flatten_push(word);
        lemma_words_ids_push(rules, shorter, word);
        lemma_words_ids(rules, table, end_token, end_token_id, shorter);
        let bytes = byte_tokens(encode_utf8(word));
        lemma_encode_len(word);
        lemma_apply_rules(rules, table, end_token, end_token_id, bytes, rules.len() as int);
        lemma_encode_concat(shorter.flatten(), word);
        if faithful(rules, table, end_token, end_token_id) {
            lemma_bytes_spelled(table, encode_utf8(word));
            lemma_spelled_concat(table, words_ids(rules, shorter), word_ids(rules, word));
            lemma_decodable_concat(table, words_ids(rules, shorter), word_ids(rules, word));
        }
    }
}

/// The bytes of the tokens that stand for bytes.
proof fn lemma_byte_table()
    ensures
        unique_keys(byte_table()),
        forall|id: TokenID| #[trigger] has_key(byte_table(), id) <==> id < BYTE_TOKENS,
        forall|b: u8| #[trigger] lookup(byte_table(), b as TokenID) == Some(seq![b]),
{
    let table = byte_table();
    assert forall|id: TokenID| #[trigger] has_key(table, id) <==> id < BYTE_TOKENS by {
        if id < BYTE_TOKENS {
            assert(table[id as int].0 == id);
        }
    }
    assert forall|b: u8| #[trigger] lookup(table, b as TokenID) == Some(seq![b]) by {
        lemma_position(table, b as int);
    }
}

/// A token has bytes where it stands for one or a rule made it.
proof fn lemma_table_after(rules: Seq<(Pair, TokenID)>, k: int)
    requires
        0 <= k <= rules.len(),
    ensures
        unique_keys(table_after(rules, k)),
        forall|id: TokenID| #[trigger]
            has_key(table_after(rules, k), id) <==> id < BYTE_TOKENS || exists|j: int|
                0 <= j < k && (#[trigger] rules[j]).1 == id,
    decreases k,
{
    lemma_byte_table();
    if k > 0 {
        lemma_table_after(rules, k - 1);
        let before = table_after(rules, k - 1);
        let (pair, id) = rules[k - 1];
        lemma_put(
            before,
            id,
            lookup_or(before, pair.0, Seq::empty()) + lookup_or(before, pair.1, Seq::empty()),
        );
        assert forall|x: TokenID| #[trigger]
            has_key(table_after(rules, k), x) <==> x < BYTE_TOKENS || exists|j: int|
                0 <= j < k && (#[trigger] rules[j]).1 == x by {
            if x == id {
                assert(rules[k - 1].1 == x);
            } else if exists|j: int| 0 <= j < k && (#[trigger] rules[j]).1 == x {
                let j = choose|j: int| 0 <= j < k && (#[trigger] rules[j]).1 == x;
                assert(0 <= j < k - 1 && rules[j].1 == x);
                assert(has_key(before, x));
            }
        }
    }
}

impl BPETokenizer {
    /// The merge rules, in order.
    pub closed spec fn rules(&self) -> Seq<(Pair, TokenID)> {
        rule_entries(self.merge_rules)
    }

    /// The bytes of each token.
    pub closed spec fn table(&self) -> Seq<(TokenID, Seq<u8>)> {
        byte_entries(self.id_to_bytes)
    }

    /// The text of the end token.
    pub closed spec fn end_token(&self) -> Seq<char> {
        self.end_token@
    }

    /// The number of the end token.
    pub closed spec fn end_number(&self) -> TokenID {
        self.end_token_id
    }

    /// How many tokens there are.
    pub closed spec fn vocab_size(&self) -> nat {
        self.vocab_size as nat
    }

    /// The tokens of a text.
    pub open spec fn ids_of(&self, text: Seq<char>) -> Seq<TokenID> {
        encoded(self.rules(), self.end_token(), self.end_number(), text)
    }

    /// The text of tokens.
    pub open spec fn text_of(&self, ids: Seq<TokenID>) -> Seq<char> {
        lossy_text(spelled(self.table(), ids))
    }

    /// The text can be encoded.
    pub open spec fn accepts(&self, text: Seq<char>) -> bool {
        encodable(self.end_token(), text)
    }

    /// Wherever an end token stands in the text, its tokens are those of the text
    /// before it, the end token, and those of the text after it, as long as two
    /// end tokens cannot overlap.
    pub open spec fn split_at_end_tokens(&self, text: Seq<char>, ids: Seq<TokenID>) -> bool {
        self.end_token().len() > 0 && border_free(self.end_token()) ==> forall|
            a: Seq<char>,
            b: Seq<char>,
        |
            text == #[trigger] (a + self.end_token() + b) ==> ids == self.ids_of(a).push(
                self.end_number(),
            ) + self.ids_of(b)
    }

    /// Tokens mean what they were made for.
    pub open spec fn is_faithful(&self) -> bool {
        faithful(self.rules(), self.table(), self.end_token(), self.end_number())
    }

    /// A tokenizer with the given merge rules and end token.
    pub fn new(
        merge_rules: &IndexMap<(TokenID, TokenID), TokenID>,
        end_token: &str,
    ) -> (tokenizer: BPETokenizer)
        requires
            rules_known(rule_entries(*merge_rules)),
        ensures
            tokenizer.rules() == rule_entries(*merge_rules),
            tokenizer.table() == full_table(rule_entries(*merge_rules), end_token@),
            tokenizer.end_token() == end_token@,
            tokenizer.end_number() == end_id(rule_entries(*merge_rules)),
            tokenizer.vocab_size() == tokenizer.table().len(),
    {
        let ghost rules = rule_entries(*merge_rules);
        let mut id_to_bytes = bytes_new();
        let mut byte: usize = 0;
        proof {
            lemma_byte_table();
            assert(byte_table().take(0) == Seq::<(TokenID, Seq<u8>)>::empty());
        }
        while byte < BYTE_TOKENS
            invariant
                byte <= BYTE_TOKENS,
                unique_keys(byte_table()),
                byte_entries(id_to_bytes) == byte_table().take(byte as int),
            decreases BYTE_TOKENS - byte,
        {
            let ghost before = byte_table().take(byte as int);
            let single: Vec<u8> = vec![byte as u8];
            bytes_insert(&mut id_to_bytes, byte as TokenID, single);
            proof {
                if has_key(before, byte as TokenID) {
                    let p = position(before, byte as TokenID);
                    assert(before[p] == byte_table()[p]);
                }
                assert(single@ == seq![byte as u8]);
                assert(before.push(byte_table()[byte as int]) == byte_table().take(byte + 1));
            }
            byte += 1;
        }
        let end_token_id: TokenID = (rules_len(merge_rules) as u128 + 256) as TokenID;
        assert(byte_table().take(byte as int) == byte_table());
        let mut k: usize = 0;
        loop
            invariant_except_break
                k <= rules.len(),
            invariant
                rules == rule_entries(*merge_rules),
                rules_known(rules),
                byte_entries(id_to_bytes) == table_after(rules, k as int),
            ensures
                k == rules.len(),
            decreases rules.len() - k,
        {
            let rule = rules_get_index(merge_rules, k);
            if rule.is_none() {
                break;
            }
            let ((left, right), id) = rule.unwrap();
            assert(rules[k as int] == ((left, right), id));
            assert(rule_known(rules, k as int));
            let mut bytes = bytes_get(&id_to_bytes, left).unwrap().clone();
            let mut more = bytes_get(&id_to_bytes, right).unwrap().clone();
            bytes.append(&mut more);
            bytes_insert(&mut id_to_bytes, id, bytes);
            k += 1;
        }
        let end_bytes = slice_to_vec(end_token.as_bytes());
        bytes_insert(&mut id_to_bytes, end_token_id, end_bytes);
        let vocab_size = bytes_len(&id_to_bytes);
        BPETokenizer {
            merge_rules: rules_clone(merge_rules),
            id_to_bytes,
            vocab_size,
            end_token: end_token.to_owned(),
            end_token_id,
        }
    }

    /// The number of the end token.
    pub fn end_token_id(&self) -> (id: TokenID)
        ensures
            id == self.end_number(),
    {
        self.end_token_id
    }

    /// Whether both parts of every rule stand for bytes or were made by earlier
    /// rules.
    pub fn rules_are_known(merge_rules: &IndexMap<(TokenID, TokenID), TokenID>) -> (known: bool)
        ensures
            known == rules_known(rule_entries(*merge_rules)),
    {
        let ghost rules = rule_entries(*merge_rules);
        let mut made: Vec<bool> = vec![false; 65536];
        let mut byte: usize = 0;
        while byte < BYTE_TOKENS
            invariant
                byte <= BYTE_TOKENS,
                made@.len() == 65536,
                forall|i: int| 0 <= i < 65536 ==> #[trigger] made@[i] == (i < byte),
            decreases BYTE_TOKENS - byte,
        {
            made.set(byte, true);
            byte += 1;
        }
        proof {
            lemma_table_after(rules, 0);
        }
        let mut k: usize = 0;
        loop
            invariant_except_break
                k <= rules.len(),
            invariant
                rules == rule_entries(*merge_rules),
                made@.len() == 65536,
                forall|id: TokenID| #[trigger]
                    made@[id as int] == has_key(table_after(rules, k as int), id),
                forall|j: int| 0 <= j < k ==> #[trigger] rule_known(rules, j),
            ensures
                k == rules.len(),
            decreases rules.len() - k,
        {
            let rule = rules_get_index(merge_rules, k);
            if rule.is_none() {
                break;
            }
            let ((left, right), id) = rule.unwrap();
            assert(rules[k as int] == ((left, right), id));
            if !made[left as usize] || !made[right as usize] {
                assert(!rule_known(rules, k as int));
                return false;
            }
            proof {
                lemma_table_after(rules, k as int);
                lemma_table_after(rules, k + 1);
            }
            let ghost before = made@;
            made.set(id as usize, true);
            proof {
                assert forall|x: TokenID| #[trigger]
                    made@[x as int] == has_key(table_after(rules, k + 1), x) by {
                    assert(before[x as int] == has_key(table_after(rules, k as int), x));
                    assert(rules[k as int].1 == id);
                }
            }
            k += 1;
        }
        true
    }

    /// A tokenizer with the merge rules that are kept in `bytes`.
    pub fn load_from(bytes: &[u8], end_token: &str) -> (tokenizer: Result<BPETokenizer, LoadError>)
        ensures
            match cbor_rules(bytes@) {
                None => tokenizer == Err::<BPETokenizer, LoadError>(LoadError::Malformed),
                Some(rules) => if rules_known(rules) {
                    &&& tokenizer is Ok
                    &&& tokenizer->Ok_0.rules() == rules
                    &&& tokenizer->Ok_0.table() == full_table(rules, end_token@)
                    &&& tokenizer->Ok_0.end_token() == end_token@
                    &&& tokenizer->Ok_0.end_number() == end_id(rules)
                    &&& tokenizer->Ok_0.vocab_size() == tokenizer->Ok_0.table().len()
                } else {
                    tokenizer == Err::<BPETokenizer, LoadError>(LoadError::UnknownPart)
                },
            },
    {
        match read_rules(bytes) {
            Ok(rules) => {
                if BPETokenizer::rules_are_known(&rules) {
                    Ok(BPETokenizer::new(&rules, end_token))
                } else {
                    Err(LoadError::UnknownPart)
                }
            },
            Err(_) => Err(LoadError::Malformed),
        }
    }

    /// The text of tokens, with replacement characters where their bytes are not
    /// UTF-8. It starts with the text that the first tokens spell.
    pub fn decode(&self, ids: &[TokenID]) -> (text: String)
        requires
            decodable(self.table(), ids@),
        ensures
            text@ == self.text_of(ids@),
            forall|k: int, start: Seq<char>|
                0 <= k <= ids@.len() && #[trigger] spells(self.table(), ids@.take(k), start)
                    ==> start.is_prefix_of(text@),
    {
        let mut bytes: Vec<u8> = Vec::new();
        let mut i: usize = 0;
        proof {
            lemma_spells_none(self.table());
            assert(ids@.take(0) == Seq::<TokenID>::empty());
        }
        while i < ids.len()
            invariant
                i <= ids.len(),
                decodable(self.table(), ids@),
                bytes@ == spelled(self.table(), ids@.take(i as int)),
            decreases ids.len() - i,
        {
            let ghost before = bytes@;
            assert(has_key(self.table(), ids@[i as int]));
            let mut more = bytes_get(&self.id_to_bytes, ids[i]).unwrap().clone();
            bytes.append(&mut more);
            proof {
                let one = seq![ids@[i as int]];
                assert(ids@.take(i + 1) == ids@.take(i as int) + one);
                lemma_spelled_concat(self.table(), ids@.take(i as int), one);
                lemma_spelled_one(self.table(), ids@[i as int]);
            }
            i += 1;
        }
        assert(ids@.take(i as int) == ids@);
        let text = decode_lossy(&bytes);
        proof {
            assert forall|k: int, start: Seq<char>|
                0 <= k <= ids@.len() && #[trigger] spells(
                    self.table(),
                    ids@.take(k),
                    start,
                ) implies start.is_prefix_of(text@) by {
                let n = encode_utf8(start).len() as int;
                assert(ids@ == ids@.take(k) + ids@.skip(k));
                lemma_spelled_concat(self.table(), ids@.take(k), ids@.skip(k));
                assert(bytes@.take(n) == encode_utf8(start));
                encode_utf8_valid_utf8(start);
                encode_utf8_decode_utf8(start);
            }
        }
        text
    }

    /// Whether every token has bytes.
    pub fn can_decode(&self, ids: &[TokenID]) -> (can: bool)
        ensures
            can == decodable(self.table(), ids@),
    {
        let mut i: usize = 0;
        while i < ids.len()
            invariant
                i <= ids.len(),
                forall|j: int| 0 <= j < i ==> has_key(self.table(), #[trigger] ids@[j]),
            decreases ids.len() - i,
        {
            if bytes_get(&self.id_to_bytes, ids[i]).is_none() {
                return false;
            }
            i += 1;
        }
        true
    }

    /// The tokens of words that were found in a text.
    pub fn encode_pretokens(&self, words: &Vec<&str>) -> (ids: Vec<TokenID>)
        ensures
            ids@ == words_ids(self.rules(), texts(words@)),
    {
        let ghost all = texts(words@);
        let mut ids: Vec<TokenID> = Vec::new();
        let mut w: usize = 0;
        proof {
            let f = |word: Seq<char>| word_ids(self.rules(), word);
            assert(all.take(0).map_values(f) == Seq::<Seq<TokenID>>::empty());
        }
        while w < words.len()
            invariant
                w <= words.len(),
                all == texts(words@),
                ids@ == words_ids(self.rules(), all.take(w as int)),
            decreases words.len() - w,
        {
            let word: &str = words[w];
            let ghost bytes = byte_tokens(encode_utf8(word@));
            let mut tokens = encode_text(word);
            let mut k: usize = 0;
            loop
                invariant_except_break
                    k <= self.rules().len(),
                invariant
                    tokens@ == apply_rules(bytes, self.rules(), k as int),
                ensures
                    k == self.rules().len(),
                decreases self.rules().len() - k,
            {
                let rule = rules_get_index(&self.merge_rules, k);
                if rule.is_none() {
                    break;
                }
                let (pair, new_id) = rule.unwrap();
                tokens = merge(&tokens, pair, new_id);
                k += 1;
            }
            ids.append(&mut tokens);
            proof {
                assert(all.take(w + 1) == all.take(w as int).push(word@));
                lemma_words_ids_push(self.rules(), all.take(w as int), word@);
            }
            w += 1;
        }
        assert(all.take(w as int) == all);
        ids
    }

    /// The tokens of a text without end tokens.
    fn encode_plain(&self, text: &str) -> (ids: Vec<TokenID>)
        requires
            pretokens(text@) is Some,
        ensures
            ids@ == plain_ids(self.rules(), text@),
            fits(ids@, text@),
            self.is_faithful() ==> spells(self.table(), ids@, text@),
    {
        let words = pretokenize(text);
        proof {
            lemma_words_ids(
                self.rules(),
                self.table(),
                self.end_token(),
                self.end_number(),
                texts(words@),
            );
        }
        self.encode_pretokens(&words)
    }

    /// The tokens of a part of a text, with the end token where it follows.
    fn encode_part(&self, text: &str, ended: bool) -> (ids: Vec<TokenID>)
        requires
            pretokens(text@) is Some,
        ensures
            ids@ == part_ids(self.rules(), self.end_number(), (text@, ended)),
            ended || text@.len() > 0 ==> ids@.len() > 0,
            text@.len() == 0 ==> plain_ids(self.rules(), text@) == Seq::<TokenID>::empty(),
            self.end_token().len() > 0 ==> fits(
                ids@,
                whole_part(self.end_token(), (text@, ended)),
            ),
            self.is_faithful() ==> spells(
                self.table(),
                ids@,
                whole_part(self.end_token(), (text@, ended)),
            ),
    {
        let mut ids = self.encode_plain(text);
        proof {
            lemma_encode_len(text@);
        }
        if ended {
            let ghost before = ids@;
            ids.push(self.end_token_id);
            proof {
                let last = seq![self.end_number()];
                assert(ids@ == before + last);
                lemma_encode_len(self.end_token());
                if self.end_token().len() > 0 {
                    lemma_fits_concat(before, text@, last, self.end_token());
                }
                if self.is_faithful() {
                    lemma_spelled_one(self.table(), self.end_number());
                    assert(spells(self.table(), last, self.end_token()));
                    lemma_spells_concat(self.table(), before, text@, last, self.end_token());
                }
            }
        }
        ids
    }

    /// The tokens of `text`, end tokens recognised: no more than the text has
    /// bytes, unless the end token is empty. An end token that stands in the text
    /// is one token, and what stands before and after it is encoded apart.
    ///
    /// Where tokens mean what they were made for, these have the bytes of the text,
    /// and decoding them gives it back.
    pub fn encode(&self, text: &str) -> (ids: Vec<TokenID>)
        requires
            self.accepts(text@),
        ensures
            ids@ == self.ids_of(text@),
            text@.len() > 0 ==> ids@.len() > 0,
            text@.len() == 0 && self.end_token().len() > 0 ==> ids@.len() == 0,
            self.split_at_end_tokens(text@, ids@),
            self.end_token().len() > 0 ==> fits(ids@, text@),
            self.is_faithful() ==> spells(self.table(), ids@, text@),
            self.is_faithful() ==> self.text_of(ids@) == text@,
    {
        let parts = split_parts(text, self.end_token.as_str());
        let ghost all = text_parts(self.end_token(), text@);
        let ghost f = |part: Part| whole_part(self.end_token(), part);
        let mut ids: Vec<TokenID> = Vec::new();
        let mut i: usize = 0;
        proof {
            let g = |part: Part| part_ids(self.rules(), self.end_number(), part);
            assert(all.take(0).map_values(f) == Seq::<Seq<char>>::empty());
            assert(all.take(0).map_values(g) == Seq::<Seq<TokenID>>::empty());
            lemma_spells_none(self.table());
        }
        while i < parts.len()
            invariant
                i <= parts.len(),
                all == parts_view(parts@),
                parts_found(all),
                empty_parts_vanish(self.rules(), all.take(i as int)),
                ids@ == parts_ids(self.rules(), self.end_number(), all.take(i as int)),
                joined(self.end_token(), all.take(i as int)).len() > 0 ==> ids@.len() > 0,
                self.end_token().len() > 0 ==> fits(
                    ids@,
                    joined(self.end_token(), all.take(i as int)),
                ),
                self.is_faithful() ==> spells(
                    self.table(),
                    ids@,
                    joined(self.end_token(), all.take(i as int)),
                ),
            decreases parts.len() - i,
        {
            let (part, ended) = parts[i];
            let ghost before = ids@;
            let ghost done = all.take(i as int);
            let ghost one: Part = (part@, ended);
            assert(all[i as int] == one);
            let mut tokens = self.encode_part(part, ended);
            let ghost added = tokens@;
            ids.append(&mut tokens);
            proof {
                assert(all.take(i + 1) == done + seq![one]);
                lemma_parts_ids_concat(self.rules(), self.end_number(), done, seq![one]);
                lemma_parts_ids_one(self.rules(), self.end_number(), one);
                lemma_joined_concat(self.end_token(), done, seq![one]);
                lemma_joined_one(self.end_token(), one);
                let text_done = joined(self.end_token(), done);
                let text_one = whole_part(self.end_token(), one);
                if self.end_token().len() > 0 {
                    lemma_fits_concat(before, text_done, added, text_one);
                }
                if self.is_faithful() {
                    lemma_spells_concat(self.table(), before, text_done, added, text_one);
                }
            }
            i += 1;
        }
        proof {
            assert(all.take(i as int) == all);
            law_parts_make_up_the_text(self.end_token(), text@);
            encode_utf8_valid_utf8(text@);
            encode_utf8_decode_utf8(text@);
            lemma_encode_len(text@);
            let end = self.end_token();
            if end.len() > 0 && border_free(end) {
                assert forall|a: Seq<char>, b: Seq<char>|
                    text@ == #[trigger] (a + end + b) implies ids@ == self.ids_of(a).push(
                    self.end_number(),
                ) + self.ids_of(b) by {
                    let before = text_parts(end, a + end);
                    law_end_token_separates(end, a, b);
                    assert forall|j: int|
                        0 <= j < before.len() && (#[trigger] before[j]).0.len()
                            == 0 implies plain_ids(self.rules(), before[j].0) == Seq::<
                        TokenID,
                    >::empty() by {
                        assert(all[j] == before[j]);
                    }
                    lemma_ended_ids(self.rules(), end, self.end_number(), a);
                    law_parts_are_encoded_apart(self.rules(), end, self.end_number(), a, b);
                }
            }
        }
        ids
    }

    /// Whether the search for words is given up in no part of a text.
    pub fn can_encode(&self, text: &str) -> (can: bool)
        ensures
            can == self.accepts(text@),
    {
        let parts = split_parts(text, self.end_token.as_str());
        let ghost all = text_parts(self.end_token(), text@);
        let mut i: usize = 0;
        while i < parts.len()
            invariant
                i <= parts.len(),
                all == parts_view(parts@),
                all == text_parts(self.end_token(), text@),
                forall|j: int| 0 <= j < i ==> pretokens((#[trigger] all[j]).0) is Some,
            decreases parts.len() - i,
        {
            let (part, ended) = parts[i];
            assert(all[i as int] == (part@, ended));
            if find_all(PRETOKEN_PATTERN, part).is_none() {
                return false;
            }
            i += 1;
        }
        true
    }

    /// The tokens of `text`, or `None` where the search for its words is given up.
    pub fn try_encode(&self, text: &str) -> (ids: Option<Vec<TokenID>>)
        ensures
            match ids {
                Some(ids) => {
                    &&& self.accepts(text@)
                    &&& ids@ == self.ids_of(text@)
                    &&& text@.len() > 0 ==> ids@.len() > 0
                    &&& text@.len() == 0 && self.end_token().len() > 0 ==> ids@.len() == 0
                    &&& self.split_at_end_tokens(text@, ids@)
                    &&& self.end_token().len() > 0 ==> fits(ids@, text@)
                    &&& self.is_faithful() ==> spells(self.table(), ids@, text@)
                    &&& self.is_faithful() ==> self.text_of(ids@) == text@
                },
                None => !self.accepts(text@),
            },
    {
        if self.can_encode(text) {
            Some(self.encode(text))
        } else {
            None
        }
    }
}

// ---------------------------------------------------------------------------
// Laws
// ---------------------------------------------------------------------------

/// The bytes of a token do not change with later rules, where the rules make
/// new tokens.
proof fn lemma_table_kept(rules: Seq<(Pair, TokenID)>, k: int, n: int)
    requires
        well_numbered(rules),
        0 <= k <= n <= rules.len(),
    ensures
        table_after(rules, n).len() == BYTE_TOKENS + n,
        forall|id: TokenID| #[trigger]
            has_key(table_after(rules, n), id) <==> id < BYTE_TOKENS + n,
        forall|id: TokenID|
            id < BYTE_TOKENS + k ==> #[trigger] lookup(table_after(rules, n), id) == lookup(
                table_after(rules, k),
                id,
            ),
    decreases n,
{
    lemma_table_after(rules, n);
    assert forall|id: TokenID| #[trigger]
        has_key(table_after(rules, n), id) <==> id < BYTE_TOKENS + n by {
        if BYTE_TOKENS <= id < BYTE_TOKENS + n {
            assert(rules[id - BYTE_TOKENS].1 == id);
        }
    }
    if n > 0 {
        let before = table_after(rules, n - 1);
        let (pair, id) = rules[n - 1];
        lemma_table_after(rules, n - 1);
        lemma_put(
            before,
            id,
            lookup_or(before, pair.0, Seq::empty()) + lookup_or(before, pair.1, Seq::empty()),
        );
        if k < n {
            lemma_table_kept(rules, k, n - 1);
        } else {
            lemma_table_kept(rules, k - 1, n - 1);
        }
    }
}

/// Rules that number their tokens in order can be used by a tokenizer, and every
/// token then means what it was made for, as long as the end token still has a
/// number of its own: tokens are numbered from zero without a gap, the end token
/// comes last.
pub proof fn law_numbered_rules_are_faithful(rules: Seq<(Pair, TokenID)>, end_token: Seq<char>)
    requires
        well_numbered(rules),
        rules.len() < MAX_MERGES,
    ensures
        rules_known(rules),
        faithful(rules, full_table(rules, end_token), end_token, end_id(rules)),
        end_id(rules) == BYTE_TOKENS + rules.len(),
        full_table(rules, end_token).len() == BYTE_TOKENS + rules.len() + 1,
        forall|id: TokenID| #[trigger]
            has_key(full_table(rules, end_token), id) <==> id <= end_id(rules),
{
    let n = rules.len() as int;
    let inner = table_after(rules, n);
    let table = full_table(rules, end_token);
    lemma_table_kept(rules, n, n);
    lemma_table_after(rules, n);
    lemma_put(inner, end_id(rules), encode_utf8(end_token));
    assert forall|b: u8| #[trigger] lookup(table, b as TokenID) == Some(seq![b]) by {
        lemma_byte_table();
        lemma_table_kept(rules, 0, n);
        assert(lookup(table_after(rules, 0), b as TokenID) == Some(seq![b]));
    }
    assert forall|k: int| 0 <= k < rules.len() implies #[trigger] rule_known(rules, k) by {
        lemma_table_kept(rules, k, k);
    }
    assert forall|k: int|
        #![trigger rules[k]]
        0 <= k < rules.len() implies {
        &&& has_key(table, rules[k].0.0)
        &&& has_key(table, rules[k].0.1)
        &&& lookup(table, rules[k].1) == Some(
            lookup_or(table, rules[k].0.0, Seq::empty()) + lookup_or(
                table,
                rules[k].0.1,
                Seq::empty(),
            ),
        )
    } by {
        let (pair, id) = rules[k];
        let before = table_after(rules, k);
        lemma_table_kept(rules, k, n);
        lemma_table_kept(rules, k + 1, n);
        lemma_table_after(rules, k);
        lemma_put(
            before,
            id,
            lookup_or(before, pair.0, Seq::empty()) + lookup_or(before, pair.1, Seq::empty()),
        );
        assert(lookup(table, pair.0) == lookup(before, pair.0));
        assert(lookup(table, pair.1) == lookup(before, pair.1));
        assert(lookup(table, id) == lookup(table_after(rules, k + 1), id));
    }
}

/// Parts of a text that an end token separates are encoded each by itself, where
/// no two end tokens can overlap: what comes before does not change what comes
/// after.
pub proof fn law_parts_are_encoded_apart(
    rules: Seq<(Pair, TokenID)>,
    end_token: Seq<char>,
    end_token_id: TokenID,
    a: Seq<char>,
    b: Seq<char>,
)
    requires
        end_token.len() > 0,
        border_free(end_token),
    ensures
        encoded(rules, end_token, end_token_id, a + end_token + b) == encoded(
            rules,
            end_token,
            end_token_id,
            a + end_token,
        ) + encoded(rules, end_token, end_token_id, b),
        encodable(end_token, a + end_token + b) <==> encodable(end_token, a + end_token)
            && encodable(end_token, b),
{
    let before = text_parts(end_token, a + end_token);
    let after = text_parts(end_token, b);
    law_end_token_separates(end_token, a, b);
    lemma_parts_ids_concat(rules, end_token_id, before, after);
    assert(parts_found(before + after) <==> parts_found(before) && parts_found(after)) by {
        if parts_found(before + after) {
            assert forall|i: int| 0 <= i < before.len() implies pretokens(
                (#[trigger] before[i]).0,
            ) is Some by {
                assert((before + after)[i] == before[i]);
            }
            assert forall|i: int| 0 <= i < after.len() implies pretokens(
                (#[trigger] after[i]).0,
            ) is Some by {
                assert((before + after)[before.len() + i] == after[i]);
            }
        }
    }
}

/// The tokens of a text with an end token behind it, where an empty part has no
/// tokens.
proof fn lemma_ended_ids(
    rules: Seq<(Pair, TokenID)>,
    end_token: Seq<char>,
    end_token_id: TokenID,
    a: Seq<char>,
)
    requires
        end_token.len() > 0,
        border_free(end_token),
        empty_parts_vanish(rules, text_parts(end_token, a + end_token)),
    ensures
        encoded(rules, end_token, end_token_id, a + end_token) == encoded(
            rules,
            end_token,
            end_token_id,
            a,
        ).push(end_token_id),
{
    let parts = text_parts(end_token, a);
    let ended = text_parts(end_token, a + end_token);
    law_end_token_ends_the_last_part(end_token, a);
    let (kept, part): (Seq<Part>, Part) = if parts.len() > 0 && !parts.last().1 {
        (parts.drop_last(), (parts.last().0, true))
    } else {
        (parts, (Seq::empty(), true))
    };
    assert(ended == kept + seq![part]);
    assert(ended[kept.len() as int] == part);
    lemma_parts_ids_concat(rules, end_token_id, kept, seq![part]);
    lemma_parts_ids_one(rules, end_token_id, part);
    if parts.len() > 0 && !parts.last().1 {
        assert(parts == kept + seq![parts.last()]);
        lemma_parts_ids_concat(rules, end_token_id, kept, seq![parts.last()]);
        lemma_parts_ids_one(rules, end_token_id, parts.last());
    }
    assert(encoded(rules, end_token, end_token_id, a + end_token) == encoded(
        rules,
        end_token,
        end_token_id,
        a,
    ).push(end_token_id));
}

/// The empty text has no tokens, unless the end token is empty.
pub proof fn lemma_empty_text_has_no_tokens(
    rules: Seq<(Pair, TokenID)>,
    end_token: Seq<char>,
    end_token_id: TokenID,
)
    requires
        end_token.len() > 0,
    ensures
        encoded(rules, end_token, end_token_id, Seq::empty()) == Seq::<TokenID>::empty(),
{
    let f = |part: Part| part_ids(rules, end_token_id, part);
    assert(Seq::<Part>::empty().map_values(f) == Seq::<Seq<TokenID>>::empty());
}

/// A text with an end token behind it has the tokens of the text and then the end
/// token, and what follows is encoded as if it stood alone, where no two end
/// tokens can overlap and the empty text has no words. The empty text has no
/// tokens.
pub proof fn law_end_token_is_one_token(
    rules: Seq<(Pair, TokenID)>,
    end_token: Seq<char>,
    end_token_id: TokenID,
    a: Seq<char>,
    b: Seq<char>,
)
    requires
        end_token.len() > 0,
        border_free(end_token),
        plain_ids(rules, Seq::empty()) == Seq::<TokenID>::empty(),
    ensures
        encoded(rules, end_token, end_token_id, a + end_token) == encoded(
            rules,
            end_token,
            end_token_id,
            a,
        ).push(end_token_id),
        encoded(rules, end_token, end_token_id, a + end_token + b) == encoded(
            rules,
            end_token,
            end_token_id,
            a,
        ).push(end_token_id) + encoded(rules, end_token, end_token_id, b),
        encoded(rules, end_token, end_token_id, Seq::empty()) == Seq::<TokenID>::empty(),
{
    let f = |part: Part| part_ids(rules, end_token_id, part);
    assert(Seq::<Part>::empty().map_values(f) == Seq::<Seq<TokenID>>::empty());
    let parts = text_parts(end_token, a + end_token);
    assert forall|i: int| 0 <= i < parts.len() && (#[trigger] parts[i]).0.len()
        == 0 implies plain_ids(rules, parts[i].0) == Seq::<TokenID>::empty() by {
        assert(parts[i].0 == Seq::<char>::empty());
    }
    lemma_ended_ids(rules, end_token, end_token_id, a);
    law_parts_are_encoded_apart(rules, end_token, end_token_id, a, b);
}

/// Tokens that spell a text, with the end token behind them, are read as the text with
/// the end token behind it.
pub proof fn lemma_ended_text_is_spelled(
    tokenizer: BPETokenizer,
    ids: Seq<TokenID>,
    text: Seq<char>,
)
    requires
        tokenizer.is_faithful(),
        spells(tokenizer.table(), ids, text),
    ensures
        tokenizer.text_of(ids.push(tokenizer.end_number())) == text + tokenizer.end_token(),
{
    let last = seq![tokenizer.end_number()];
    lemma_spelled_one(tokenizer.table(), tokenizer.end_number());
    assert(spells(tokenizer.table(), last, tokenizer.end_token()));
    lemma_spells_concat(tokenizer.table(), ids, text, last, tokenizer.end_token());
    assert(ids.push(tokenizer.end_number()) == ids + last);
    encode_utf8_valid_utf8(text + tokenizer.end_token());
    encode_utf8_decode_utf8(text + tokenizer.end_token());
}

/// Two of the standard end tokens cannot overlap.
pub proof fn law_end_tokens_cannot_overlap()
    ensures
        border_free(END_TOKEN@),
        END_TOKEN@.len() == 13,
{
    reveal_strlit("<|endoftext|>");
    let text = END_TOKEN@;
    assert forall|d: int| 0 < d < text.len() implies #[trigger] text.skip(d) != text.take(
        text.len() - d,
    ) by {
        assert(text.skip(d)[0] == text[d]);
        assert(text.take(text.len() - d)[0] == text[0]);
    }
}

/// Applying numbered rules makes tokens with the numbers of these rules only, and
/// leaves no pair that one of them merges.
proof fn lemma_rules_applied(ids: Seq<TokenID>, rules: Seq<(Pair, TokenID)>, n: int)
    requires
        well_numbered(rules),
        0 <= n <= rules.len(),
        forall|i: int| 0 <= i < ids.len() ==> #[trigger] ids[i] < BYTE_TOKENS,
    ensures
        forall|i: int|
            0 <= i < apply_rules(ids, rules, n).len() ==> #[trigger] apply_rules(ids, rules, n)[i]
                < BYTE_TOKENS + n,
        forall|k: int|
            0 <= k < n ==> occurrences(apply_rules(ids, rules, n), (#[trigger] rules[k]).0) == 0,
    decreases n,
{
    if n > 0 {
        lemma_rules_applied(ids, rules, n - 1);
        let before = apply_rules(ids, rules, n - 1);
        let after = apply_rules(ids, rules, n);
        let (pair, id) = rules[n - 1];
        assert(id == BYTE_TOKENS + n - 1);
        assert(!before.contains(id));
        lemma_merge_tokens(before, pair, id);
        assert forall|i: int| 0 <= i < after.len() implies #[trigger] after[i] < BYTE_TOKENS
            + n by {
            if after[i] != id {
                let j = before.index_of(after[i]);
                assert(before[j] < BYTE_TOKENS + n - 1);
            }
        }
        law_merged_pair_is_gone(before, pair, id);
        assert forall|k: int| 0 <= k < n implies occurrences(after, (#[trigger] rules[k]).0)
            == 0 by {
            if k < n - 1 && occurrences(after, rules[k].0) > 0 {
                lemma_occurrences(after, rules[k].0);
                let i = choose|i: int|
                    0 <= i < after.len() - 1 && #[trigger] pair_at(after, i) == rules[k].0;
                lemma_merge_adjacent(before, pair, id, i);
            }
        }
    }
}

/// No rule is left to apply in the tokens of a word: no pair that a rule merges
/// stands in them, and all are bytes or tokens that the rules make.
pub proof fn law_no_rule_is_left_to_apply(rules: Seq<(Pair, TokenID)>, word: Seq<char>)
    requires
        well_numbered(rules),
    ensures
        forall|k: int|
            0 <= k < rules.len() ==> occurrences(word_ids(rules, word), (#[trigger] rules[k]).0)
                == 0,
        forall|i: int|
            0 <= i < word_ids(rules, word).len() ==> #[trigger] word_ids(rules, word)[i]
                < BYTE_TOKENS + rules.len(),
{
    lemma_rules_applied(byte_tokens(encode_utf8(word)), rules, rules.len() as int);
}

/// Later rules do not matter for what the first leave.
proof fn lemma_first_rules(ids: Seq<TokenID>, rules: Seq<(Pair, TokenID)>, k: int)
    requires
        0 < k <= rules.len(),
    ensures
        apply_rules(ids, rules, k) == apply_rules(
            merged(ids, rules[0].0, rules[0].1),
            rules.skip(1),
            k - 1,
        ),
    decreases k,
{
    if k > 1 {
        lemma_first_rules(ids, rules, k - 1);
        assert(rules.skip(1)[k - 2] == rules[k - 1]);
    } else {
        assert(apply_rules(ids, rules, 0) == ids);
    }
}

/// Rules are applied in their order, the first before all others, each to what the
/// ones before it left, and all of them: a word's bytes go in, with the first rule's
/// pair merged, and the rest of the rules do the rest.
pub proof fn law_first_rule_comes_first(rules: Seq<(Pair, TokenID)>, word: Seq<char>)
    ensures
        rules.len() == 0 ==> word_ids(rules, word) == byte_tokens(encode_utf8(word)),
        rules.len() > 0 ==> word_ids(rules, word) == apply_rules(
            merged(byte_tokens(encode_utf8(word)), rules[0].0, rules[0].1),
            rules.skip(1),
            rules.len() - 1,
        ),
        rules.len() > 0 ==> word_ids(rules, word) == merged(
            word_ids(rules.drop_last(), word),
            rules.last().0,
            rules.last().1,
        ),
{
    let bytes = byte_tokens(encode_utf8(word));
    if rules.len() > 0 {
        lemma_first_rules(bytes, rules, rules.len() as int);
        lemma_rule_prefix(bytes, rules, rules.len() - 1);
    }
}

/// What the first rules leave, they leave without the last rule too.
proof fn lemma_rule_prefix(ids: Seq<TokenID>, rules: Seq<(Pair, TokenID)>, k: int)
    requires
        0 <= k < rules.len(),
    ensures
        apply_rules(ids, rules, k) == apply_rules(ids, rules.drop_last(), k),
    decreases k,
{
    if k > 0 {
        lemma_rule_prefix(ids, rules, k - 1);
    }
}

/// The words of a text are encoded each by itself, and nothing is added between
/// them: where the words of a text are those of two others, one after the other, so
/// are its tokens. A text that is one word has the tokens of that word, one without
/// words has none.
pub proof fn law_words_are_encoded_one_by_one(
    rules: Seq<(Pair, TokenID)>,
    text: Seq<char>,
    a: Seq<char>,
    b: Seq<char>,
    first: Seq<Seq<char>>,
    second: Seq<Seq<char>>,
)
    requires
        pretokens(a) == Some(first),
        pretokens(b) == Some(second),
        pretokens(text) == Some(first + second),
    ensures
        plain_ids(rules, text) == plain_ids(rules, a) + plain_ids(rules, b),
        first.len() == 1 ==> plain_ids(rules, a) == word_ids(rules, first[0]),
        first.len() == 0 ==> plain_ids(rules, a) == Seq::<TokenID>::empty(),
{
    let f = |word: Seq<char>| word_ids(rules, word);
    assert((first + second).map_values(f) == first.map_values(f) + second.map_values(f));
    vstd::seq_lib::lemma_flatten_concat(first.map_values(f), second.map_values(f));
    if first.len() == 1 {
        let one = first.map_values(f);
        assert(one == seq![word_ids(rules, first[0])]);
        one.lemma_flatten_one_element();
    }
    if first.len() == 0 {
        assert(first.map_values(f) == Seq::<Seq<TokenID>>::empty());
    }
}

/// In a text whose words are known, the words before a word and the words after it
/// do not change its tokens: they stand between those of the others.
pub proof fn law_each_word_keeps_its_tokens(
    rules: Seq<(Pair, TokenID)>,
    text: Seq<char>,
    words: Seq<Seq<char>>,
    i: int,
)
    requires
        pretokens(text) == Some(words),
        0 <= i < words.len(),
    ensures
        plain_ids(rules, text) == words_ids(rules, words.take(i)) + word_ids(rules, words[i])
            + words_ids(rules, words.skip(i + 1)),
{
    let f = |word: Seq<char>| word_ids(rules, word);
    let before = words.take(i + 1);
    let after = words.skip(i + 1);
    assert(before == words.take(i).push(words[i]));
    lemma_words_ids_push(rules, words.take(i), words[i]);
    assert(words.map_values(f) == before.map_values(f) + after.map_values(f));
    vstd::seq_lib::lemma_flatten_concat(before.map_values(f), after.map_values(f));
}

/// A text without end tokens is encoded as one part, and can be encoded where its
/// words can be found. With an end token behind it, that token comes last.
pub proof fn law_text_without_end_tokens_is_one_part(
    rules: Seq<(Pair, TokenID)>,
    end_token: Seq<char>,
    end_token_id: TokenID,
    text: Seq<char>,
)
    requires
        text.len() > 0,
        end_token.len() > 0,
        forall|i: int| !#[trigger] occurs_at(text, end_token, i),
    ensures
        encoded(rules, end_token, end_token_id, text) == plain_ids(rules, text),
        encodable(end_token, text) <==> pretokens(text) is Some,
        is_first(text + end_token, end_token, text.len() as int) ==> {
            &&& encoded(rules, end_token, end_token_id, text + end_token) == plain_ids(
                rules,
                text,
            ) + seq![end_token_id]
            &&& encodable(end_token, text + end_token) <==> pretokens(text) is Some
        },
{
    let parts = text_parts(end_token, text);
    assert(first_occurrence(text, end_token) is None);
    assert(parts == seq![(text, false)]);
    assert(parts[0].0 == text);
    lemma_parts_ids_one(rules, end_token_id, (text, false));
    let whole = text + end_token;
    if is_first(whole, end_token, text.len() as int) {
        lemma_first_occurrence(whole, end_token, text.len() as int);
        assert(whole.take(text.len() as int) == text);
        assert(whole.skip((text.len() + end_token.len()) as int) == Seq::<char>::empty());
        let ended = text_parts(end_token, whole);
        assert(text_parts(end_token, Seq::empty()) == Seq::<Part>::empty());
        assert(ended == seq![(text, true)]);
        assert(ended[0].0 == text);
        lemma_parts_ids_one(rules, end_token_id, (text, true));
    }
}

/// The parts of a text are encoded each by itself: what the tokens of a part are
/// does not depend on the other parts. The end token comes behind a part that it
/// ends.
pub proof fn law_each_part_keeps_its_tokens(
    rules: Seq<(Pair, TokenID)>,
    end_token: Seq<char>,
    end_token_id: TokenID,
    text: Seq<char>,
    i: int,
)
    requires
        0 <= i < text_parts(end_token, text).len(),
    ensures
        ({
            let parts = text_parts(end_token, text);
            let (part, ended) = parts[i];
            encoded(rules, end_token, end_token_id, text) == parts_ids(
                rules,
                end_token_id,
                parts.take(i),
            ) + plain_ids(rules, part) + (if ended {
                seq![end_token_id]
            } else {
                Seq::empty()
            }) + parts_ids(rules, end_token_id, parts.skip(i + 1))
        }),
        encodable(end_token, text) ==> pretokens(text_parts(end_token, text)[i].0) is Some,
        !encodable(end_token, text) ==> exists|j: int|
            0 <= j < text_parts(end_token, text).len() && pretokens(
                (#[trigger] text_parts(end_token, text)[j]).0,
            ) is None,
{
    let parts = text_parts(end_token, text);
    let one = seq![parts[i]];
    assert(parts == parts.take(i) + one + parts.skip(i + 1));
    lemma_parts_ids_concat(rules, end_token_id, parts.take(i) + one, parts.skip(i + 1));
    lemma_parts_ids_concat(rules, end_token_id, parts.take(i), one);
    lemma_parts_ids_one(rules, end_token_id, parts[i]);
    let plain = plain_ids(rules, parts[i].0);
    assert(part_ids(rules, end_token_id, parts[i]) == plain + (if parts[i].1 {
        seq![end_token_id]
    } else {
        Seq::empty()
    }));
    let before = parts_ids(rules, end_token_id, parts.take(i));
    let last: Seq<TokenID> = if parts[i].1 {
        seq![end_token_id]
    } else {
        Seq::empty()
    };
    assert(before + (plain + last) == before + plain + last);
}

/// Tokens are decoded one by one: the bytes of two sequences, one after the other,
/// are those of both, and the bytes of one token are those under which it is kept.
pub proof fn law_tokens_are_spelled_one_by_one(
    table: Seq<(TokenID, Seq<u8>)>,
    a: Seq<TokenID>,
    b: Seq<TokenID>,
    i: int,
)
    requires
        0 <= i < table.len(),
        unique_keys(table),
    ensures
        spelled(table, a + b) == spelled(table, a) + spelled(table, b),
        spelled(table, seq![table[i].0]) == table[i].1,
        spelled(table, Seq::empty()) == Seq::<u8>::empty(),
        decodable(table, a + b) <==> decodable(table, a) && decodable(table, b),
        decodable(table, seq![table[i].0]),
{
    lemma_spelled_concat(table, a, b);
    lemma_spelled_one(table, table[i].0);
    lemma_spells_none(table);
    lemma_position(table, i);
    let f = |id: TokenID| lookup_or(table, id, Seq::empty());
    assert(Seq::<TokenID>::empty().map_values(f) == Seq::<Seq<u8>>::empty());
    if decodable(table, a + b) {
        assert forall|j: int| 0 <= j < a.len() implies has_key(table, #[trigger] a[j]) by {
            assert((a + b)[j] == a[j]);
        }
        assert forall|j: int| 0 <= j < b.len() implies has_key(table, #[trigger] b[j]) by {
            assert((a + b)[a.len() + j] == b[j]);
        }
    }
    if decodable(table, a) && decodable(table, b) {
        lemma_decodable_concat(table, a, b);
    }
}

/// A rule gives its token the bytes of both parts, as they are before it, and
/// changes no other token. Before all rules there are the tokens of bytes, behind
/// them the end token is added.
pub proof fn law_rules_define_one_token_each(
    rules: Seq<(Pair, TokenID)>,
    end_token: Seq<char>,
    k: int,
    id: TokenID,
)
    requires
        0 <= k < rules.len(),
    ensures
        lookup(table_after(rules, k + 1), rules[k].1) == Some(
            lookup_or(table_after(rules, k), rules[k].0.0, Seq::empty()) + lookup_or(
                table_after(rules, k),
                rules[k].0.1,
                Seq::empty(),
            ),
        ),
        id != rules[k].1 ==> lookup(table_after(rules, k + 1), id) == lookup(
            table_after(rules, k),
            id,
        ),
        lookup(table_after(rules, 0), id) == if id < 256 {
            Some(seq![id as u8])
        } else {
            None
        },
        lookup(full_table(rules, end_token), end_id(rules)) == Some(encode_utf8(end_token)),
        id != end_id(rules) ==> lookup(full_table(rules, end_token), id) == lookup(
            table_after(rules, rules.len() as int),
            id,
        ),
        rules_known(rules) ==> {
            &&& lookup(table_after(rules, k), rules[k].0.0) is Some
            &&& lookup(table_after(rules, k), rules[k].0.1) is Some
        },
        !rules_known(rules) ==> exists|j: int|
            0 <= j < rules.len() && (lookup(
                table_after(rules, j),
                (#[trigger] rules[j]).0.0,
            ) is None || lookup(table_after(rules, j), rules[j].0.1) is None),
{
    let before = table_after(rules, k);
    let (pair, new_id) = rules[k];
    lemma_table_after(rules, k);
    lemma_put(
        before,
        new_id,
        lookup_or(before, pair.0, Seq::empty()) + lookup_or(before, pair.1, Seq::empty()),
    );
    lemma_byte_table();
    if id < 256 {
        assert(lookup(byte_table(), (id as u8) as TokenID) == Some(seq![id as u8]));
    } else {
        assert(!has_key(byte_table(), id));
    }
    lemma_table_after(rules, rules.len() as int);
    lemma_put(table_after(rules, rules.len() as int), end_id(rules), encode_utf8(end_token));
    if rules_known(rules) {
        assert(rule_known(rules, k));
    } else {
        let j = choose|j: int| 0 <= j < rules.len() && !#[trigger] rule_known(rules, j);
        assert(lookup(table_after(rules, j), rules[j].0.0) is None || lookup(
            table_after(rules, j),
            rules[j].0.1,
        ) is None);
    }
}

/// Tokens whose bytes are UTF-8 are read as the text with these bytes.
pub proof fn law_tokens_are_read_as_they_are_spelled(tokenizer: BPETokenizer, ids: Seq<TokenID>)
    ensures
        valid_utf8(spelled(tokenizer.table(), ids)) ==> encode_utf8(tokenizer.text_of(ids))
            == spelled(tokenizer.table(), ids),
{
    law_valid_bytes_are_read_as_written(spelled(tokenizer.table(), ids), Seq::empty());
}

/// A tokenizer encodes a text without end tokens word by word with all its rules, and
/// accepts it where its words can be found: each word has its own tokens, between those
/// of the words before it and those of the words after it.
pub proof fn law_tokenizer_encodes_word_by_word(
    tokenizer: BPETokenizer,
    text: Seq<char>,
    words: Seq<Seq<char>>,
    i: int,
)
    requires
        text.len() > 0,
        tokenizer.end_token().len() > 0,
        forall|j: int| !#[trigger] occurs_at(text, tokenizer.end_token(), j),
        pretokens(text) == Some(words),
        0 <= i < words.len(),
    ensures
        tokenizer.accepts(text),
        tokenizer.ids_of(text) == words_ids(tokenizer.rules(), words.take(i)) + word_ids(
            tokenizer.rules(),
            words[i],
        ) + words_ids(tokenizer.rules(), words.skip(i + 1)),
{
    law_text_without_end_tokens_is_one_part(
        tokenizer.rules(),
        tokenizer.end_token(),
        tokenizer.end_number(),
        text,
    );
    law_each_word_keeps_its_tokens(tokenizer.rules(), text, words, i);
}

/// A tokenizer encodes what stands before an end token and what stands after it each by
/// itself, with the number of the end token between them, where no two end tokens can
/// overlap and the empty text has no words.
pub proof fn law_tokenizer_keeps_documents_apart(
    tokenizer: BPETokenizer,
    a: Seq<char>,
    b: Seq<char>,
)
    requires
        tokenizer.end_token().len() > 0,
        border_free(tokenizer.end_token()),
        plain_ids(tokenizer.rules(), Seq::empty()) == Seq::<TokenID>::empty(),
    ensures
        tokenizer.ids_of(a + tokenizer.end_token() + b) == tokenizer.ids_of(a) + seq![
            tokenizer.end_number(),
        ] + tokenizer.ids_of(b),
        tokenizer.ids_of(Seq::empty()) == Seq::<TokenID>::empty(),
        tokenizer.accepts(a + tokenizer.end_token() + b) <==> tokenizer.accepts(
            a + tokenizer.end_token(),
        ) && tokenizer.accepts(b),
{
    let (rules, end, id) = (tokenizer.rules(), tokenizer.end_token(), tokenizer.end_number());
    law_end_token_is_one_token(rules, end, id, a, b);
    law_parts_are_encoded_apart(rules, end, id, a, b);
    assert(tokenizer.ids_of(a).push(id) == tokenizer.ids_of(a) + seq![id]);
}

/// The end token has the number after those of bytes and rules, counted from zero again
/// where the numbers have run out.
pub proof fn law_end_token_is_numbered_last(rules: Seq<(Pair, TokenID)>)
    requires
        rules.len() <= u64::MAX,
    ensures
        end_id(rules) == (256 + rules.len()) % 65536,
{
    law_tokens_are_numbered_in_order(rules.len() as u64);
    assert(end_id(rules) == merge_id(rules.len() as int));
}

} // verus!

//! Generating text token by token.
//!
//! [`Generation`] holds the tokens so far. The model is asked for the token that
//! follows a window of them, until it says the end token or enough was said.

use vstd::prelude::*;

use crate::grpo::{keep_last, last_tokens};
use crate::ordered::TokenID;
use crate::search::{is_first, lemma_first_occurrence, occurs_at};
use crate::sft::prompt_text;
use crate::text::{after_marker, text_after};
use crate::tokenizer::{decodable, spells, BPETokenizer};

verus! {

/// Where a generation stands: the tokens so far, and how many may still come.
pub struct GenerationState {
    /// The tokens so far.
    pub tokens: Seq<TokenID>,
    /// How many may still come.
    pub left: nat,
}

/// Where a generation stands after the model chose a token: the end token ends
/// it, any other is added.
pub open spec fn accepted(state: GenerationState, id: TokenID, end: TokenID) -> GenerationState {
    if state.left == 0 {
        state
    } else if id == end {
        GenerationState { left: 0, ..state }
    } else {
        GenerationState { tokens: state.tokens.push(id), left: (state.left - 1) as nat }
    }
}

/// Where a generation stands after the model chose tokens one by one.
pub open spec fn accepted_all(
    state: GenerationState,
    ids: Seq<TokenID>,
    end: TokenID,
) -> GenerationState
    decreases ids.len(),
{
    if ids.len() == 0 {
        state
    } else {
        accepted_all(accepted(state, ids[0], end), ids.skip(1), end)
    }
}

/// A text that is being generated.
pub struct Generation {
    tokens: Vec<TokenID>,
    left: usize,
    max_context_len: usize,
    end_token_id: TokenID,
}

impl View for Generation {
    type V = GenerationState;

    closed spec fn view(&self) -> GenerationState {
        GenerationState { tokens: self.tokens@, left: self.left as nat }
    }
}

impl Generation {
    /// How many tokens the model is shown at most.
    pub closed spec fn context(&self) -> nat {
        self.max_context_len as nat
    }

    /// The token that ends the generation.
    pub closed spec fn end(&self) -> TokenID {
        self.end_token_id
    }

    /// A generation that goes on from tokens.
    pub fn from_tokens(
        tokens: Vec<TokenID>,
        end_token_id: TokenID,
        max_new_tokens: usize,
        max_context_len: usize,
    ) -> (generation: Generation)
        ensures
            generation@ == (GenerationState { tokens: tokens@, left: max_new_tokens as nat }),
            generation.context() == max_context_len,
            generation.end() == end_token_id,
    {
        Generation { tokens, left: max_new_tokens, max_context_len, end_token_id }
    }

    /// A generation that goes on from a prompt.
    pub fn start(
        tokenizer: &BPETokenizer,
        prompt: &str,
        max_new_tokens: usize,
        max_context_len: usize,
    ) -> (generation: Generation)
        requires
            tokenizer.accepts(prompt@),
        ensures
            generation@ == (GenerationState {
                tokens: tokenizer.ids_of(prompt@),
                left: max_new_tokens as nat,
            }),
            generation.context() == max_context_len,
            generation.end() == tokenizer.end_number(),
            tokenizer.is_faithful() ==> spells(tokenizer.table(), generation@.tokens, prompt@),
    {
        let tokens = tokenizer.encode(prompt);
        Generation::from_tokens(tokens, tokenizer.end_token_id(), max_new_tokens, max_context_len)
    }

    /// A generation that goes on from a prompt, or `None` where the search for its
    /// words is given up.
    pub fn try_start(
        tokenizer: &BPETokenizer,
        prompt: &str,
        max_new_tokens: usize,
        max_context_len: usize,
    ) -> (generation: Option<Generation>)
        ensures
            generation is Some <==> tokenizer.accepts(prompt@),
            generation matches Some(generation) ==> {
                &&& generation@ == (GenerationState {
                    tokens: tokenizer.ids_of(prompt@),
                    left: max_new_tokens as nat,
                })
                &&& generation.context() == max_context_len
                &&& generation.end() == tokenizer.end_number()
                &&& tokenizer.is_faithful() ==> spells(
                    tokenizer.table(),
                    generation@.tokens,
                    prompt@,
                )
            },
    {
        if tokenizer.can_encode(prompt) {
            Some(Generation::start(tokenizer, prompt, max_new_tokens, max_context_len))
        } else {
            None
        }
    }

    /// The last tokens, for which the model is to choose the next, or `None` where
    /// the generation has ended.
    pub fn window(&self) -> (window: Option<Vec<TokenID>>)
        ensures
            window is Some <==> self@.left > 0,
            window matches Some(tokens) ==> tokens@ == last_tokens(
                self@.tokens,
                self.context() as int,
            ) && tokens@.len() <= self.context(),
    {
        if self.left == 0 {
            None
        } else {
            Some(keep_last(&self.tokens, self.max_context_len))
        }
    }

    /// Takes in the token that the model chose.
    pub fn accept(&mut self, next_id: TokenID)
        ensures
            final(self)@ == accepted(old(self)@, next_id, old(self).end()),
            final(self).context() == old(self).context(),
            final(self).end() == old(self).end(),
    {
        if self.left > 0 {
            if next_id == self.end_token_id {
                self.left = 0;
            } else {
                self.tokens.push(next_id);
                self.left = self.left - 1;
            }
        }
    }

    /// The tokens so far.
    pub fn tokens(&self) -> (tokens: &Vec<TokenID>)
        ensures
            tokens@ == self@.tokens,
    {
        &self.tokens
    }

    /// The text so far, or `None` where the model chose a token that has no bytes.
    /// It starts with the text that the first tokens spell, as those of a prompt
    /// spell the prompt.
    pub fn text(&self, tokenizer: &BPETokenizer) -> (text: Option<String>)
        ensures
            text is Some <==> decodable(tokenizer.table(), self@.tokens),
            text matches Some(text) ==> text@ == tokenizer.text_of(self@.tokens),
            text matches Some(text) ==> forall|k: int, start: Seq<char>|
                0 <= k <= self@.tokens.len() && #[trigger] spells(
                    tokenizer.table(),
                    self@.tokens.take(k),
                    start,
                ) ==> start.is_prefix_of(text@),
    {
        if tokenizer.can_decode(&self.tokens) {
            Some(tokenizer.decode(&self.tokens))
        } else {
            None
        }
    }
}

/// What of a chat is the response: all that follows the heading.
pub fn chat_response(text: &str) -> (response: String)
    ensures
        response@ == after_marker(text@, "### Response:"@),
{
    text_after(text, "### Response:")
}

/// How many of the chosen tokens are kept: all before the first end token, and
/// no more than `left`.
pub open spec fn kept(ids: Seq<TokenID>, end: TokenID, left: nat) -> int
    decreases ids.len(),
{
    if ids.len() == 0 || left == 0 || ids[0] == end {
        0
    } else {
        1 + kept(ids.skip(1), end, (left - 1) as nat)
    }
}

/// Generating keeps what was there and adds the chosen tokens up to the first end
/// token, at most as many as were asked for. The end token itself is never added.
pub proof fn law_generation_extends(state: GenerationState, ids: Seq<TokenID>, end: TokenID)
    ensures
        accepted_all(state, ids, end).tokens == state.tokens + ids.take(kept(ids, end, state.left)),
        0 <= kept(ids, end, state.left) <= ids.len(),
        kept(ids, end, state.left) <= state.left,
        forall|i: int| 0 <= i < kept(ids, end, state.left) ==> #[trigger] ids[i] != end,
        kept(ids, end, state.left) < ids.len() && kept(ids, end, state.left) < state.left
            ==> ids[kept(ids, end, state.left)] == end,
    decreases ids.len(),
{
    let n = kept(ids, end, state.left);
    if ids.len() == 0 {
        assert(state.tokens + ids.take(0) == state.tokens);
    } else {
        let next = accepted(state, ids[0], end);
        let rest = ids.skip(1);
        law_generation_extends(next, rest, end);
        if state.left == 0 || ids[0] == end {
            assert(next.left == 0);
            assert(rest.take(0) == ids.take(0));
            assert(kept(rest, end, 0) == 0);
        } else {
            let m = kept(rest, end, next.left);
            assert(n == m + 1);
            assert(state.tokens.push(ids[0]) + rest.take(m) == state.tokens + ids.take(m + 1));
            assert forall|i: int| 0 <= i < n implies #[trigger] ids[i] != end by {
                if i > 0 {
                    assert(rest[i - 1] == ids[i]);
                }
            }
            if n < ids.len() && n < state.left {
                assert(rest[m] == ids[n]);
            }
        }
    }
}

/// A smaller limit keeps a prefix of what a larger one keeps: the same tokens, up
/// to the limit.
pub proof fn law_smaller_limit_keeps_a_prefix(
    tokens: Seq<TokenID>,
    ids: Seq<TokenID>,
    end: TokenID,
    m: nat,
    n: nat,
)
    requires
        m <= n,
    ensures
        kept(ids, end, m) <= kept(ids, end, n),
        kept(ids, end, m) == if kept(ids, end, n) <= m {
            kept(ids, end, n)
        } else {
            m as int
        },
        accepted_all(GenerationState { tokens, left: m }, ids, end).tokens.is_prefix_of(
            accepted_all(GenerationState { tokens, left: n }, ids, end).tokens,
        ),
{
    lemma_kept_limit(ids, end, m, n);
    law_generation_extends(GenerationState { tokens, left: m }, ids, end);
    law_generation_extends(GenerationState { tokens, left: n }, ids, end);
    let small = tokens + ids.take(kept(ids, end, m));
    let large = tokens + ids.take(kept(ids, end, n));
    assert(small == large.take(small.len() as int));
}

/// How a limit changes how many tokens are kept.
proof fn lemma_kept_limit(ids: Seq<TokenID>, end: TokenID, m: nat, n: nat)
    requires
        m <= n,
    ensures
        0 <= kept(ids, end, m) <= kept(ids, end, n),
        kept(ids, end, m) == if kept(ids, end, n) <= m {
            kept(ids, end, n)
        } else {
            m as int
        },
    decreases ids.len(),
{
    if ids.len() > 0 && ids[0] != end && n > 0 {
        if m > 0 {
            lemma_kept_limit(ids.skip(1), end, (m - 1) as nat, (n - 1) as nat);
        } else {
            lemma_kept_limit(ids.skip(1), end, 0, (n - 1) as nat);
        }
    }
}

/// Where a generation ends with a model that chooses by the window alone: the
/// model is asked for the token that follows the last tokens, again and again.
pub open spec fn generated(
    state: GenerationState,
    context: int,
    end: TokenID,
    model: spec_fn(Seq<TokenID>) -> TokenID,
) -> GenerationState
    decreases state.left,
{
    if state.left == 0 {
        state
    } else {
        generated(
            accepted(state, model(last_tokens(state.tokens, context)), end),
            context,
            end,
            model,
        )
    }
}

/// Where the model chooses by the window alone, a generation is decided by its
/// start, and one with a smaller limit is a prefix of one with a larger limit: it
/// is the same where it is shorter than its limit allows.
pub proof fn law_shorter_generation_is_a_prefix(
    tokens: Seq<TokenID>,
    context: int,
    end: TokenID,
    model: spec_fn(Seq<TokenID>) -> TokenID,
    m: nat,
    n: nat,
)
    requires
        m <= n,
    ensures
        ({
            let small = generated(GenerationState { tokens, left: m }, context, end, model).tokens;
            let large = generated(GenerationState { tokens, left: n }, context, end, model).tokens;
            &&& tokens.is_prefix_of(small)
            &&& small.is_prefix_of(large)
            &&& small.len() <= tokens.len() + m
            &&& small.len() < tokens.len() + m ==> small == large
        }),
    decreases m,
{
    let id = model(last_tokens(tokens, context));
    let small = generated(GenerationState { tokens, left: m }, context, end, model).tokens;
    let large = generated(GenerationState { tokens, left: n }, context, end, model).tokens;
    if m == 0 {
        lemma_generated_extends(tokens, context, end, model, n);
    } else if id == end {
        let stopped = GenerationState { tokens, left: 0 };
        assert(generated(stopped, context, end, model) == stopped);
        assert(small == tokens && large == tokens);
    } else {
        let more = tokens.push(id);
        law_shorter_generation_is_a_prefix(
            more,
            context,
            end,
            model,
            (m - 1) as nat,
            (n - 1) as nat,
        );
        assert(more.is_prefix_of(small));
        assert(tokens == small.take(tokens.len() as int)) by {
            assert(more == small.take(more.len() as int));
            assert(more.take(tokens.len() as int) == tokens);
        }
    }
}

/// A generation keeps what was there.
proof fn lemma_generated_extends(
    tokens: Seq<TokenID>,
    context: int,
    end: TokenID,
    model: spec_fn(Seq<TokenID>) -> TokenID,
    n: nat,
)
    ensures
        tokens.is_prefix_of(
            generated(GenerationState { tokens, left: n }, context, end, model).tokens,
        ),
    decreases n,
{
    if n > 0 {
        let id = model(last_tokens(tokens, context));
        if id == end {
            let stopped = GenerationState { tokens, left: 0 };
            assert(generated(stopped, context, end, model) == stopped);
        } else {
            let more = tokens.push(id);
            let all = generated(
                GenerationState { tokens: more, left: (n - 1) as nat },
                context,
                end,
                model,
            ).tokens;
            lemma_generated_extends(more, context, end, model, (n - 1) as nat);
            assert(tokens == all.take(tokens.len() as int)) by {
                assert(more == all.take(more.len() as int));
                assert(more.take(tokens.len() as int) == tokens);
            }
        }
    }
}

/// Of what the model made of an instruction, the chat returns what follows the
/// prompt, where the instruction has no such heading itself.
pub proof fn law_chat_returns_what_was_said(instruction: Seq<char>, said: Seq<char>)
    requires
        forall|i: int| !#[trigger] occurs_at(instruction, "### Response:"@, i),
    ensures
        after_marker(prompt_text(instruction) + said, "### Response:"@) == "\n"@ + said,
{
    reveal_strlit("### Instruction:\n");
    reveal_strlit("### Response:");
    reveal_strlit("\n\n### Response:\n");
    reveal_strlit("\n");
    let heading = "### Response:"@;
    let text = prompt_text(instruction) + said;
    let start = "### Instruction:\n"@.len() as int;
    let end = start + instruction.len();
    let at = end + 2;
    assert(text.subrange(at, at + heading.len()) == heading);
    assert forall|j: int| 0 <= j < at implies !#[trigger] occurs_at(text, heading, j) by {
        if occurs_at(text, heading, j) {
            let found = text.subrange(j, j + heading.len());
            assert(found[0] == text[j] && found[1] == text[j + 1] && found[4] == text[j + 4]);
            if j >= start && j + heading.len() <= end {
                assert(instruction.subrange(j - start, j - start + heading.len()) == found);
                assert(occurs_at(instruction, heading, j - start));
            } else if start <= j < end {
                assert(found[end - j] == text[end]);
                assert(text[end] == '\n');
            }
        }
    }
    assert(is_first(text, heading, at));
    lemma_first_occurrence(text, heading, at);
    assert(text.skip(at + heading.len()) == "\n"@ + said);
}

/// The first tokens of a generation still spell its prompt, whatever the model
/// chose, so that the text starts with it.
pub proof fn law_generation_keeps_the_prompt(
    table: Seq<(TokenID, Seq<u8>)>,
    state: GenerationState,
    ids: Seq<TokenID>,
    end: TokenID,
    prompt: Seq<char>,
)
    requires
        spells(table, state.tokens, prompt),
    ensures
        spells(
            table,
            accepted_all(state, ids, end).tokens.take(state.tokens.len() as int),
            prompt,
        ),
{
    law_generation_extends(state, ids, end);
    assert(accepted_all(state, ids, end).tokens.take(state.tokens.len() as int) == state.tokens);
}

} // verus!

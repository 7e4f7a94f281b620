//! Training examples made of instructions and responses.

use vstd::prelude::*;
use vstd::string::StringExecFns;

use crate::dataset::{repeated, rows_of, uniform, CodeBotItem};
use crate::ordered::TokenID;
use crate::tokenizer::{
    law_end_token_is_one_token, law_end_tokens_cannot_overlap, lemma_ended_text_is_spelled,
    lemma_empty_text_has_no_tokens, plain_ids, spells, BPETokenizer, END_TOKEN,
};

verus! {

/// A label that is left out of account.
pub const IGNORE_TOKEN: TokenID = 65535;

/// An instruction and the response to it.
#[derive(Debug, Clone)]
pub struct CodeBotSFTItem {
    /// What is asked.
    pub instruction: String,
    /// What is to be answered.
    pub response: String,
}

/// An instruction as the model is asked to follow it.
pub open spec fn prompt_text(instruction: Seq<char>) -> Seq<char> {
    "### Instruction:\n"@ + instruction + "\n\n### Response:\n"@
}

/// A response as the model is to give it: the end token comes last.
pub open spec fn response_text(response: Seq<char>) -> Seq<char> {
    response + END_TOKEN@
}

/// An instruction as the model is asked to follow it.
pub fn format_prompt(instruction: &str) -> (prompt: String)
    ensures
        prompt@ == prompt_text(instruction@),
        prompt@.len() > 0,
{
    let mut prompt = "### Instruction:\n".to_owned();
    prompt.append(instruction);
    prompt.append("\n\n### Response:\n");
    proof {
        reveal_strlit("### Instruction:\n");
    }
    prompt
}

/// A row cut or filled up to a given length.
pub open spec fn fitted(row: Seq<TokenID>, len: int, fill: TokenID) -> Seq<TokenID> {
    if row.len() <= len {
        row + repeated(fill, len - row.len())
    } else {
        row.take(len)
    }
}

/// What the model sees of a prompt and a response: all but the last token.
pub open spec fn sft_tokens(prompt: Seq<TokenID>, response: Seq<TokenID>, context: int) -> Seq<
    TokenID,
> {
    fitted((prompt + response).drop_last(), context, 0)
}

/// What the model is to say: the tokens of the response, each one place ahead.
/// What belongs to the prompt is left out of account.
pub open spec fn sft_labels(prompt: Seq<TokenID>, response: Seq<TokenID>, context: int) -> Seq<
    TokenID,
> {
    fitted((repeated(IGNORE_TOKEN, prompt.len() as int) + response).skip(1), context, IGNORE_TOKEN)
}

/// Cuts a row or fills it up to a given length.
fn fit_row(row: &mut Vec<TokenID>, len: usize, fill: TokenID)
    ensures
        final(row)@ == fitted(old(row)@, len as int, fill),
{
    let ghost before = row@;
    row.resize(len, fill);
    proof {
        if before.len() < len {
            assert forall|i: int| 0 <= i < len implies row@[i] == fitted(
                before,
                len as int,
                fill,
            )[i] by {
                if i < before.len() {
                    assert(row@.subrange(0, before.len() as int)[i] == before[i]);
                }
            }
        }
        assert(row@ == fitted(before, len as int, fill));
    }
}

/// The example of a prompt and a response, given as tokens.
pub fn sft_example(
    prompt: Vec<TokenID>,
    response: Vec<TokenID>,
    context_size: usize,
) -> (item: CodeBotItem)
    requires
        prompt@.len() + response@.len() > 0,
    ensures
        item.tokens@ == sft_tokens(prompt@, response@, context_size as int),
        item.labels@ == sft_labels(prompt@, response@, context_size as int),
        item.tokens@.len() == context_size,
        item.labels@.len() == context_size,
{
    let mut labels: Vec<TokenID> = vec![IGNORE_TOKEN; prompt.len()];
    assert(labels@ == repeated(IGNORE_TOKEN, prompt@.len() as int));
    let mut tokens = prompt;
    let mut again = response.clone();
    assert(again@ == response@);
    let mut response = response;
    tokens.append(&mut again);
    labels.append(&mut response);
    tokens.pop();
    labels.remove(0);
    fit_row(&mut tokens, context_size, 0);
    fit_row(&mut labels, context_size, IGNORE_TOKEN);
    CodeBotItem { tokens, labels }
}

/// Both texts of a chat can be encoded.
pub open spec fn chat_accepted(tokenizer: BPETokenizer, chat: CodeBotSFTItem) -> bool {
    &&& tokenizer.accepts(prompt_text(chat.instruction@))
    &&& tokenizer.accepts(response_text(chat.response@))
}

/// What the model sees of a chat.
pub open spec fn chat_tokens(
    tokenizer: BPETokenizer,
    chat: CodeBotSFTItem,
    context: int,
) -> Seq<TokenID> {
    sft_tokens(
        tokenizer.ids_of(prompt_text(chat.instruction@)),
        tokenizer.ids_of(response_text(chat.response@)),
        context,
    )
}

/// What the model is to say in a chat.
pub open spec fn chat_labels(
    tokenizer: BPETokenizer,
    chat: CodeBotSFTItem,
    context: int,
) -> Seq<TokenID> {
    sft_labels(
        tokenizer.ids_of(prompt_text(chat.instruction@)),
        tokenizer.ids_of(response_text(chat.response@)),
        context,
    )
}

/// The prompt of a chat has tokens, and those of its response with the end token are
/// those of the response and the end token.
spec fn ends_with_end_token(tokenizer: BPETokenizer, chat: CodeBotSFTItem) -> bool {
    &&& tokenizer.ids_of(prompt_text(chat.instruction@)).len() > 0
    &&& tokenizer.ids_of(response_text(chat.response@)) == tokenizer.ids_of(chat.response@).push(
        tokenizer.end_number(),
    )
}

/// Chats as examples of one length.
#[derive(Debug, Clone)]
pub struct CodeBotSFTDataset {
    tokens: Vec<Vec<TokenID>>,
    labels: Vec<Vec<TokenID>>,
}

/// The text of a response with the end token.
fn ended(response: &str) -> (text: String)
    ensures
        text@ == response_text(response@),
{
    let mut text = response.to_owned();
    text.append(END_TOKEN);
    text
}

impl CodeBotSFTDataset {
    /// The tokens of the examples.
    pub closed spec fn token_rows(&self) -> Seq<Seq<TokenID>> {
        rows_of(self.tokens@)
    }

    /// The labels of the examples.
    pub closed spec fn label_rows(&self) -> Seq<Seq<TokenID>> {
        rows_of(self.labels@)
    }

    /// Every example has tokens and labels.
    pub open spec fn wf(&self) -> bool {
        self.token_rows().len() == self.label_rows().len()
    }

    /// These are the examples of the given chats.
    pub open spec fn holds(
        &self,
        tokenizer: BPETokenizer,
        chats: Seq<CodeBotSFTItem>,
        context: int,
    ) -> bool {
        &&& self.token_rows().len() == chats.len()
        &&& self.label_rows().len() == chats.len()
        &&& forall|i: int|
            0 <= i < chats.len() ==> #[trigger] self.token_rows()[i] == chat_tokens(
                tokenizer,
                chats[i],
                context,
            )
        &&& forall|i: int|
            0 <= i < chats.len() ==> #[trigger] self.label_rows()[i] == chat_labels(
                tokenizer,
                chats[i],
                context,
            )
    }

    /// The examples of chats, all of one length.
    pub fn new(
        context_size: usize,
        chats: &Vec<CodeBotSFTItem>,
        tokenizer: &BPETokenizer,
    ) -> (dataset: CodeBotSFTDataset)
        requires
            forall|i: int|
                0 <= i < chats@.len() ==> chat_accepted(*tokenizer, #[trigger] chats@[i]),
        ensures
            dataset.wf(),
            dataset.holds(*tokenizer, chats@, context_size as int),
            uniform(dataset.token_rows(), context_size as int),
            uniform(dataset.label_rows(), context_size as int),
            tokenizer.end_token() == END_TOKEN@ ==> forall|i: int, j: int|
                0 <= i < chats@.len() && 0 <= j < context_size ==> ({
                    let prompt = tokenizer.ids_of(
                        "### Instruction:\n"@ + chats@[i].instruction@ + "\n\n### Response:\n"@,
                    );
                    let response = tokenizer.ids_of(chats@[i].response@).push(
                        tokenizer.end_number(),
                    );
                    #[trigger] dataset.label_rows()[i][j] == if prompt.len() <= j + 1
                        < prompt.len() + response.len() {
                        response[j + 1 - prompt.len()]
                    } else {
                        IGNORE_TOKEN
                    }
                }),
    {
        let mut tokens: Vec<Vec<TokenID>> = Vec::new();
        let mut labels: Vec<Vec<TokenID>> = Vec::new();
        let mut i: usize = 0;
        while i < chats.len()
            invariant
                i <= chats.len(),
                tokens@.len() == i,
                labels@.len() == i,
                forall|j: int|
                    0 <= j < chats@.len() ==> chat_accepted(*tokenizer, #[trigger] chats@[j]),
                forall|j: int|
                    0 <= j < i ==> (#[trigger] tokens@[j])@ == chat_tokens(
                        *tokenizer,
                        chats@[j],
                        context_size as int,
                    ) && tokens@[j]@.len() == context_size,
                forall|j: int|
                    0 <= j < i ==> (#[trigger] labels@[j])@ == chat_labels(
                        *tokenizer,
                        chats@[j],
                        context_size as int,
                    ) && labels@[j]@.len() == context_size,
                tokenizer.end_token() == END_TOKEN@ ==> forall|j: int|
                    0 <= j < i ==> #[trigger] ends_with_end_token(*tokenizer, chats@[j]),
            decreases chats.len() - i,
        {
            let chat = &chats[i];
            assert(chat_accepted(*tokenizer, chats@[i as int]));
            let prompt = tokenizer.encode(format_prompt(chat.instruction.as_str()).as_str());
            let response = tokenizer.encode(ended(chat.response.as_str()).as_str());
            proof {
                if tokenizer.end_token() == END_TOKEN@ {
                    let text = response_text(chat.response@);
                    let nothing = Seq::<char>::empty();
                    law_end_tokens_cannot_overlap();
                    lemma_empty_text_has_no_tokens(
                        tokenizer.rules(),
                        END_TOKEN@,
                        tokenizer.end_number(),
                    );
                    assert(tokenizer.split_at_end_tokens(text, response@));
                    assert(text == chat.response@ + tokenizer.end_token() + nothing);
                    assert(response@ == tokenizer.ids_of(chat.response@).push(
                        tokenizer.end_number(),
                    ));
                    assert(ends_with_end_token(*tokenizer, chats@[i as int]));
                }
            }
            let item = sft_example(prompt, response, context_size);
            tokens.push(item.tokens);
            labels.push(item.labels);
            i += 1;
        }
        let dataset = CodeBotSFTDataset { tokens, labels };
        proof {
            if tokenizer.end_token() == END_TOKEN@ {
                assert forall|i: int, j: int|
                    0 <= i < chats@.len() && 0 <= j < context_size implies ({
                    let prompt = tokenizer.ids_of(
                        "### Instruction:\n"@ + chats@[i].instruction@ + "\n\n### Response:\n"@,
                    );
                    let response = tokenizer.ids_of(chats@[i].response@).push(
                        tokenizer.end_number(),
                    );
                    #[trigger] dataset.label_rows()[i][j] == if prompt.len() <= j + 1
                        < prompt.len() + response.len() {
                        response[j + 1 - prompt.len()]
                    } else {
                        IGNORE_TOKEN
                    }
                }) by {
                    assert(ends_with_end_token(*tokenizer, chats@[i]));
                    lemma_chat_example(*tokenizer, chats@[i], context_size as int);
                    assert(dataset.label_rows()[i] == labels@[i]@);
                }
            }
        }
        dataset
    }

    /// The examples of chats, all of one length, or `None` where the search for the
    /// words of a text is given up.
    pub fn try_new(
        context_size: usize,
        chats: &Vec<CodeBotSFTItem>,
        tokenizer: &BPETokenizer,
    ) -> (dataset: Option<CodeBotSFTDataset>)
        ensures
            dataset is Some <==> forall|i: int|
                0 <= i < chats@.len() ==> chat_accepted(*tokenizer, #[trigger] chats@[i]),
            dataset matches Some(dataset) ==> {
                &&& dataset.wf()
                &&& dataset.holds(*tokenizer, chats@, context_size as int)
                &&& uniform(dataset.token_rows(), context_size as int)
                &&& uniform(dataset.label_rows(), context_size as int)
                &&& tokenizer.end_token() == END_TOKEN@ ==> forall|i: int, j: int|
                    0 <= i < chats@.len() && 0 <= j < context_size ==> ({
                        let prompt = tokenizer.ids_of(
                            "### Instruction:\n"@ + chats@[i].instruction@
                                + "\n\n### Response:\n"@,
                        );
                        let response = tokenizer.ids_of(chats@[i].response@).push(
                            tokenizer.end_number(),
                        );
                        #[trigger] dataset.label_rows()[i][j] == if prompt.len() <= j + 1
                            < prompt.len() + response.len() {
                            response[j + 1 - prompt.len()]
                        } else {
                            IGNORE_TOKEN
                        }
                    })
            },
    {
        let mut i: usize = 0;
        while i < chats.len()
            invariant
                i <= chats.len(),
                forall|j: int| 0 <= j < i ==> chat_accepted(*tokenizer, #[trigger] chats@[j]),
            decreases chats.len() - i,
        {
            let chat = &chats[i];
            let prompt = format_prompt(chat.instruction.as_str());
            let response = ended(chat.response.as_str());
            if !tokenizer.can_encode(prompt.as_str()) || !tokenizer.can_encode(response.as_str()) {
                assert(!chat_accepted(*tokenizer, chats@[i as int]));
                return None;
            }
            i += 1;
        }
        Some(CodeBotSFTDataset::new(context_size, chats, tokenizer))
    }

    /// How many examples there are.
    pub fn len(&self) -> (len: usize)
        ensures
            len == self.token_rows().len(),
    {
        self.tokens.len()
    }

    /// An example.
    pub fn get(&self, index: usize) -> (item: Option<CodeBotItem>)
        requires
            self.wf(),
        ensures
            item is Some <==> index < self.token_rows().len(),
            item matches Some(item) ==> item.tokens@ == self.token_rows()[index as int]
                && item.labels@ == self.label_rows()[index as int],
    {
        if index >= self.len() {
            return None;
        }
        let tokens = self.tokens[index].clone();
        let labels = self.labels[index].clone();
        assert(tokens@ == self.token_rows()[index as int]);
        assert(labels@ == self.label_rows()[index as int]);
        Some(CodeBotItem { tokens, labels })
    }
}

/// An example has the length of the context. A label is the token after the one
/// that it stands with, where that token belongs to the response; every other
/// label is left out of account.
pub proof fn law_labels_are_the_response(
    prompt: Seq<TokenID>,
    response: Seq<TokenID>,
    context: int,
)
    requires
        prompt.len() + response.len() > 0,
        context >= 0,
    ensures
        sft_tokens(prompt, response, context).len() == context,
        sft_labels(prompt, response, context).len() == context,
        forall|i: int|
            0 <= i < context ==> #[trigger] sft_labels(prompt, response, context)[i] == (
            if prompt.len() <= i + 1 < prompt.len() + response.len() {
                (prompt + response)[i + 1]
            } else {
                IGNORE_TOKEN
            }),
        forall|i: int|
            0 <= i < context ==> #[trigger] sft_tokens(prompt, response, context)[i] == if i + 1
                < prompt.len() + response.len() {
                (prompt + response)[i]
            } else {
                0
            },
{
}

/// A prompt is the instruction between two headings.
pub proof fn law_prompt_holds_the_instruction(instruction: Seq<char>)
    ensures
        prompt_text(instruction).len() == 17 + instruction.len() + 16,
        prompt_text(instruction).take(17) == "### Instruction:\n"@,
        prompt_text(instruction).subrange(17, (17 + instruction.len()) as int) == instruction,
        prompt_text(instruction).skip((17 + instruction.len()) as int) == "\n\n### Response:\n"@,
{
    reveal_strlit("### Instruction:\n");
    reveal_strlit("\n\n### Response:\n");
    let first = "### Instruction:\n"@;
    let last = "\n\n### Response:\n"@;
    let prompt = prompt_text(instruction);
    assert(prompt.take(17) == first);
    assert(prompt.subrange(17, (17 + instruction.len()) as int) == instruction);
    assert(prompt.skip((17 + instruction.len()) as int) == last);
}

/// A row that fits keeps all its tokens and is filled up, a longer one keeps its
/// start.
pub proof fn law_fitted_row_keeps_its_start(
    row: Seq<TokenID>,
    len: int,
    fill: TokenID,
    i: int,
)
    requires
        0 <= i < len,
    ensures
        fitted(row, len, fill).len() == len,
        fitted(row, len, fill)[i] == if i < row.len() {
            row[i]
        } else {
            fill
        },
{
}

/// The example of a chat by position, where the tokens of the response with its end
/// token are those of the response and the end token.
proof fn lemma_chat_example(tokenizer: BPETokenizer, chat: CodeBotSFTItem, context: int)
    requires
        context >= 0,
        tokenizer.ids_of(
            "### Instruction:\n"@ + chat.instruction@ + "\n\n### Response:\n"@,
        ).len() > 0,
        tokenizer.ids_of(chat.response@ + END_TOKEN@) == tokenizer.ids_of(chat.response@).push(
            tokenizer.end_number(),
        ),
    ensures
        ({
            let prompt = tokenizer.ids_of(
                "### Instruction:\n"@ + chat.instruction@ + "\n\n### Response:\n"@,
            );
            let response = tokenizer.ids_of(chat.response@).push(tokenizer.end_number());
            let tokens = chat_tokens(tokenizer, chat, context);
            let labels = chat_labels(tokenizer, chat, context);
            &&& tokens.len() == context
            &&& labels.len() == context
            &&& forall|i: int|
                0 <= i < context ==> #[trigger] labels[i] == if prompt.len() <= i + 1
                    < prompt.len() + response.len() {
                    response[i + 1 - prompt.len()]
                } else {
                    IGNORE_TOKEN
                }
            &&& forall|i: int|
                0 <= i < context ==> #[trigger] tokens[i] == if i < prompt.len() && i + 1
                    < prompt.len() + response.len() {
                    prompt[i]
                } else if i + 1 < prompt.len() + response.len() {
                    response[i - prompt.len()]
                } else {
                    0
                }
            &&& prompt.len() + response.len() <= context + 1 ==> labels.subrange(
                prompt.len() - 1,
                prompt.len() - 1 + response.len(),
            ) == response
        }),
{
    let prompt = tokenizer.ids_of(
        "### Instruction:\n"@ + chat.instruction@ + "\n\n### Response:\n"@,
    );
    let response = tokenizer.ids_of(chat.response@ + END_TOKEN@);
    law_labels_are_the_response(prompt, response, context);
    assert(chat_tokens(tokenizer, chat, context) == sft_tokens(prompt, response, context));
    assert(chat_labels(tokenizer, chat, context) == sft_labels(prompt, response, context));
}

/// What the model is to say in a chat is the response as it is written, whole, and
/// then the end token: its tokens are the labels from the last token of the prompt on,
/// and every other label is left out of account. What the model sees is the prompt and
/// then the response, up to its last token. Where nothing is cut, the labels are read
/// as the response and the end token.
pub proof fn law_chat_is_learned_as_written(
    tokenizer: BPETokenizer,
    chat: CodeBotSFTItem,
    context: int,
)
    requires
        context >= 0,
        tokenizer.end_token() == END_TOKEN@,
        plain_ids(tokenizer.rules(), Seq::empty()) == Seq::<TokenID>::empty(),
        tokenizer.ids_of(
            "### Instruction:\n"@ + chat.instruction@ + "\n\n### Response:\n"@,
        ).len() > 0,
    ensures
        ({
            let prompt = tokenizer.ids_of(
                "### Instruction:\n"@ + chat.instruction@ + "\n\n### Response:\n"@,
            );
            let response = tokenizer.ids_of(chat.response@).push(tokenizer.end_number());
            let tokens = chat_tokens(tokenizer, chat, context);
            let labels = chat_labels(tokenizer, chat, context);
            &&& tokens.len() == context
            &&& labels.len() == context
            &&& forall|i: int|
                0 <= i < context ==> #[trigger] labels[i] == if prompt.len() <= i + 1
                    < prompt.len() + response.len() {
                    response[i + 1 - prompt.len()]
                } else {
                    IGNORE_TOKEN
                }
            &&& forall|i: int|
                0 <= i < context ==> #[trigger] tokens[i] == if i < prompt.len() && i + 1
                    < prompt.len() + response.len() {
                    prompt[i]
                } else if i + 1 < prompt.len() + response.len() {
                    response[i - prompt.len()]
                } else {
                    0
                }
            &&& prompt.len() + response.len() <= context + 1 && tokenizer.is_faithful() && spells(
                tokenizer.table(),
                tokenizer.ids_of(chat.response@),
                chat.response@,
            ) ==> tokenizer.text_of(
                labels.subrange(prompt.len() - 1, prompt.len() - 1 + response.len()),
            ) == chat.response@ + END_TOKEN@
        }),
{
    law_end_tokens_cannot_overlap();
    law_end_token_is_one_token(
        tokenizer.rules(),
        END_TOKEN@,
        tokenizer.end_number(),
        chat.response@,
        Seq::empty(),
    );
    lemma_chat_example(tokenizer, chat, context);
    if tokenizer.is_faithful() && spells(
        tokenizer.table(),
        tokenizer.ids_of(chat.response@),
        chat.response@,
    ) {
        lemma_ended_text_is_spelled(tokenizer, tokenizer.ids_of(chat.response@), chat.response@);
    }
}

/// A chat can be encoded where its prompt can, and its response with the end token.
pub proof fn law_chat_can_be_encoded(tokenizer: BPETokenizer, chat: CodeBotSFTItem)
    ensures
        tokenizer.accepts("### Instruction:\n"@ + chat.instruction@ + "\n\n### Response:\n"@)
            && tokenizer.accepts(chat.response@ + END_TOKEN@) <==> chat_accepted(tokenizer, chat),
{
}

/// Each chat has its example at its place, and all examples have the length of the
/// context. The tokens are those of the prompt and then of the response with the end
/// token, up to the last, and zeros. The labels are those of the response with the end
/// token, one place ahead, and nothing else counts.
pub proof fn law_dataset_holds_every_chat(
    dataset: CodeBotSFTDataset,
    tokenizer: BPETokenizer,
    chats: Seq<CodeBotSFTItem>,
    context: int,
    i: int,
    j: int,
)
    requires
        dataset.holds(tokenizer, chats, context),
        0 <= i < chats.len(),
        0 <= j < context,
        tokenizer.ids_of(
            "### Instruction:\n"@ + chats[i].instruction@ + "\n\n### Response:\n"@,
        ).len() > 0,
    ensures
        ({
            let prompt = tokenizer.ids_of(
                "### Instruction:\n"@ + chats[i].instruction@ + "\n\n### Response:\n"@,
            );
            let response = tokenizer.ids_of(chats[i].response@ + END_TOKEN@);
            let all = prompt + response;
            &&& dataset.token_rows().len() == chats.len()
            &&& dataset.label_rows().len() == chats.len()
            &&& dataset.token_rows()[i].len() == context
            &&& dataset.label_rows()[i].len() == context
            &&& dataset.token_rows()[i][j] == if j + 1 < all.len() {
                all[j]
            } else {
                0
            }
            &&& dataset.label_rows()[i][j] == if prompt.len() <= j + 1 < all.len() {
                all[j + 1]
            } else {
                IGNORE_TOKEN
            }
        }),
{
    let prompt = tokenizer.ids_of(
        "### Instruction:\n"@ + chats[i].instruction@ + "\n\n### Response:\n"@,
    );
    let response = tokenizer.ids_of(chats[i].response@ + END_TOKEN@);
    law_labels_are_the_response(prompt, response, context);
    assert(dataset.token_rows()[i] == chat_tokens(tokenizer, chats[i], context));
    assert(dataset.label_rows()[i] == chat_labels(tokenizer, chats[i], context));
}

} // verus!

//! Training examples cut out of one long sequence of tokens, and their batches.

use vstd::prelude::*;
use vstd::slice::{slice_subrange, slice_to_vec};

use crate::cbor::{cbor_ids, ids_cbor, load_ids, save_ids};
use crate::ordered::TokenID;
use crate::tokenizer::BPETokenizer;

verus! {

// ---------------------------------------------------------------------------
// Rows of tokens
// ---------------------------------------------------------------------------

/// The same value `n` times.
pub open spec fn repeated(value: TokenID, n: int) -> Seq<TokenID> {
    Seq::new(n as nat, |i: int| value)
}

/// What vectors hold.
pub open spec fn rows_of(rows: Seq<Vec<TokenID>>) -> Seq<Seq<TokenID>> {
    rows.map_values(|row: Vec<TokenID>| row@)
}

/// All rows have the same length.
pub open spec fn uniform(rows: Seq<Seq<TokenID>>, len: int) -> bool {
    forall|i: int| 0 <= i < rows.len() ==> (#[trigger] rows[i]).len() == len
}

/// Rows one after the other, as signed numbers.
pub open spec fn flat(rows: Seq<Seq<TokenID>>) -> Seq<i32> {
    rows.flatten().map_values(|token: TokenID| token as i32)
}

/// What one row more adds.
pub proof fn lemma_flat_push(rows: Seq<Seq<TokenID>>, row: Seq<TokenID>)
    ensures
        flat(rows.push(row)) == flat(rows) + row.map_values(|token: TokenID| token as i32),
{
    rows.lemma_flatten_push(row);
    let f = |token: TokenID| token as i32;
    assert((rows.flatten() + row).map_values(f) == rows.flatten().map_values(f) + row.map_values(
        f,
    ));
}

/// Rows of the same length fill a rectangle.
pub proof fn lemma_flat_len(rows: Seq<Seq<TokenID>>, len: nat)
    requires
        uniform(rows, len as int),
    ensures
        flat(rows).len() == rows.len() * len,
    decreases rows.len(),
{
    if rows.len() == 0 {
        assert(0 * len == 0) by (nonlinear_arith);
    } else {
        let shorter = rows.drop_last();
        assert(uniform(shorter, len as int)) by {
            assert forall|i: int| 0 <= i < shorter.len() implies (#[trigger] shorter[i]).len()
                == len by {
                assert(rows[i].len() == len);
            }
        }
        lemma_flat_len(shorter, len);
        assert(rows == shorter.push(rows.last()));
        assert(rows[rows.len() - 1].len() == len);
        lemma_flat_push(shorter, rows.last());
        assert((shorter.len() + 1) * len == shorter.len() * len + len) by (nonlinear_arith);
    }
}

/// Puts a row behind others.
pub(crate) fn append_row(all: &mut Vec<i32>, row: &Vec<TokenID>)
    ensures
        final(all)@ == old(all)@ + row@.map_values(|token: TokenID| token as i32),
{
    let ghost before = all@;
    let ghost f = |token: TokenID| token as i32;
    let mut i: usize = 0;
    while i < row.len()
        invariant
            i <= row.len(),
            f == (|token: TokenID| token as i32),
            all@ == before + row@.take(i as int).map_values(f),
        decreases row.len() - i,
    {
        all.push(row[i] as i32);
        assert(row@.take(i + 1).map_values(f) == row@.take(i as int).map_values(f).push(
            row@[i as int] as i32,
        ));
        i += 1;
    }
    assert(row@.take(i as int) == row@);
}

// ---------------------------------------------------------------------------
// Examples
// ---------------------------------------------------------------------------

/// A training example: tokens, and for each the token that is to follow.
#[derive(Debug, Clone)]
pub struct CodeBotItem {
    /// What the model sees.
    pub tokens: Vec<TokenID>,
    /// What it should say next, token by token.
    pub labels: Vec<TokenID>,
}

/// Examples as two rectangles of numbers, row by row.
#[derive(Debug, Clone)]
pub struct CodeBotBatch {
    /// The tokens of all examples.
    pub tokens: Vec<i32>,
    /// The labels of all examples.
    pub labels: Vec<i32>,
    /// How many examples there are.
    pub rows: usize,
    /// How long each is.
    pub cols: usize,
}

/// Makes batches out of examples.
#[derive(Debug, Clone, Copy)]
pub struct CodeBotBatcher;

/// The tokens of examples.
pub open spec fn token_rows(items: Seq<CodeBotItem>) -> Seq<Seq<TokenID>> {
    items.map_values(|item: CodeBotItem| item.tokens@)
}

/// The labels of examples.
pub open spec fn label_rows(items: Seq<CodeBotItem>) -> Seq<Seq<TokenID>> {
    items.map_values(|item: CodeBotItem| item.labels@)
}

/// There are examples, and all tokens and labels have one length.
pub open spec fn batchable(items: Seq<CodeBotItem>) -> bool {
    &&& items.len() > 0
    &&& uniform(token_rows(items), items[0].tokens@.len() as int)
    &&& uniform(label_rows(items), items[0].tokens@.len() as int)
}

impl CodeBotBatcher {
    /// Whether the examples can form a batch.
    pub fn can_batch(&self, items: &Vec<CodeBotItem>) -> (can: bool)
        ensures
            can == batchable(items@),
    {
        if items.len() == 0 {
            return false;
        }
        let len: usize = items[0].tokens.len();
        let mut i: usize = 0;
        while i < items.len()
            invariant
                0 < items.len(),
                i <= items.len(),
                len == items@[0].tokens@.len(),
                forall|j: int|
                    0 <= j < i ==> (#[trigger] items@[j]).tokens@.len() == len
                        && items@[j].labels@.len() == len,
            decreases items.len() - i,
        {
            if items[i].tokens.len() != len || items[i].labels.len() != len {
                assert(token_rows(items@)[i as int] == items@[i as int].tokens@);
                assert(label_rows(items@)[i as int] == items@[i as int].labels@);
                return false;
            }
            i += 1;
        }
        true
    }

    /// The examples as a batch.
    pub fn batch(&self, items: Vec<CodeBotItem>) -> (batch: CodeBotBatch)
        requires
            batchable(items@),
        ensures
            batch.tokens@ == flat(token_rows(items@)),
            batch.labels@ == flat(label_rows(items@)),
            batch.rows == items@.len(),
            batch.cols == items@[0].tokens@.len(),
            batch.tokens@.len() == batch.rows * batch.cols,
            batch.labels@.len() == batch.rows * batch.cols,
            forall|r: int, c: int|
                0 <= r < batch.rows && 0 <= c < batch.cols ==> batch.tokens@[r * batch.cols + c]
                    == #[trigger] items@[r].tokens@[c] as int,
            forall|r: int, c: int|
                0 <= r < batch.rows && 0 <= c < batch.cols ==> batch.labels@[r * batch.cols + c]
                    == #[trigger] items@[r].labels@[c] as int,
    {
        let ghost token_rows = token_rows(items@);
        let ghost label_rows = label_rows(items@);
        let mut tokens: Vec<i32> = Vec::new();
        let mut labels: Vec<i32> = Vec::new();
        let mut i: usize = 0;
        proof {
            assert(flat(token_rows.take(0)) == Seq::<i32>::empty());
            assert(flat(label_rows.take(0)) == Seq::<i32>::empty());
        }
        while i < items.len()
            invariant
                i <= items.len(),
                token_rows == crate::dataset::token_rows(items@),
                label_rows == crate::dataset::label_rows(items@),
                tokens@ == flat(token_rows.take(i as int)),
                labels@ == flat(label_rows.take(i as int)),
            decreases items.len() - i,
        {
            append_row(&mut tokens, &items[i].tokens);
            append_row(&mut labels, &items[i].labels);
            proof {
                lemma_flat_push(token_rows.take(i as int), token_rows[i as int]);
                lemma_flat_push(label_rows.take(i as int), label_rows[i as int]);
                assert(token_rows.take(i + 1) == token_rows.take(i as int).push(
                    token_rows[i as int],
                ));
                assert(label_rows.take(i + 1) == label_rows.take(i as int).push(
                    label_rows[i as int],
                ));
            }
            i += 1;
        }
        proof {
            assert(token_rows.take(i as int) == token_rows);
            assert(label_rows.take(i as int) == label_rows);
            lemma_flat_len(token_rows, items@[0].tokens@.len());
            lemma_flat_len(label_rows, items@[0].tokens@.len());
            let cols = items@[0].tokens@.len();
            assert forall|r: int, c: int| 0 <= r < items@.len() && 0 <= c < cols implies tokens@[r
                * cols + c] == #[trigger] items@[r].tokens@[c] as int by {
                law_rows_stand_one_after_the_other(token_rows, cols, r, c);
            }
            assert forall|r: int, c: int| 0 <= r < items@.len() && 0 <= c < cols implies labels@[r
                * cols + c] == #[trigger] items@[r].labels@[c] as int by {
                law_rows_stand_one_after_the_other(label_rows, cols, r, c);
            }
        }
        CodeBotBatch { tokens, labels, rows: items.len(), cols: items[0].tokens.len() }
    }
}

// ---------------------------------------------------------------------------
// Examples from one long sequence
// ---------------------------------------------------------------------------

/// The bytes in which the tokens of a text are kept, or `None` where the search
/// for its words is given up. Reading the bytes gives the tokens again.
pub fn convert_text(tokenizer: &BPETokenizer, text: &str) -> (bytes: Option<Vec<u8>>)
    ensures
        bytes is Some <==> tokenizer.accepts(text@),
        bytes matches Some(bytes) ==> {
            &&& bytes@ == ids_cbor(tokenizer.ids_of(text@))
            &&& cbor_ids(bytes@) == Some(tokenizer.ids_of(text@))
        },
{
    match tokenizer.try_encode(text) {
        Some(ids) => Some(save_ids(&ids)),
        None => None,
    }
}

/// A long sequence of tokens as examples that overlap.
#[derive(Debug, Clone)]
pub struct CodeBotDataset {
    context_size: usize,
    tokens: Vec<TokenID>,
}

impl CodeBotDataset {
    /// How long each example is.
    pub closed spec fn context(&self) -> nat {
        self.context_size as nat
    }

    /// The whole sequence.
    pub closed spec fn sequence(&self) -> Seq<TokenID> {
        self.tokens@
    }

    /// The sequence has tokens beyond one context.
    pub open spec fn has_context(&self) -> bool {
        self.context() < self.sequence().len()
    }

    /// The examples of a sequence of tokens.
    pub fn from_tokens(context_size: usize, tokens: Vec<TokenID>) -> (dataset: CodeBotDataset)
        ensures
            dataset.context() == context_size,
            dataset.sequence() == tokens@,
    {
        CodeBotDataset { context_size, tokens }
    }

    /// The examples of the tokens that are kept in `bytes`, or `None` where these
    /// hold something else.
    pub fn new(context_size: usize, bytes: &[u8]) -> (dataset: Option<CodeBotDataset>)
        ensures
            match dataset {
                Some(dataset) => {
                    &&& dataset.context() == context_size
                    &&& cbor_ids(bytes@) == Some(dataset.sequence())
                },
                None => cbor_ids(bytes@) is None,
            },
    {
        match load_ids(bytes) {
            Some(tokens) => Some(CodeBotDataset::from_tokens(context_size, tokens)),
            None => None,
        }
    }

    /// Whether the sequence has tokens beyond one context.
    pub fn is_long_enough(&self) -> (long: bool)
        ensures
            long == self.has_context(),
    {
        self.context_size < self.tokens.len()
    }

    /// How many examples there are: one for each start at which a context, its
    /// labels and one token more fit.
    pub fn len(&self) -> (len: usize)
        requires
            self.has_context(),
        ensures
            len == self.sequence().len() - self.context() - 1,
    {
        self.tokens.len() - self.context_size - 1
    }

    /// The example that starts at `index`. The labels are the tokens one further on.
    pub fn get(&self, index: usize) -> (item: Option<CodeBotItem>)
        requires
            self.has_context(),
        ensures
            item is Some <==> index < self.sequence().len() - self.context() - 1,
            item matches Some(item) ==> {
                &&& item.tokens@ == self.sequence().subrange(
                    index as int,
                    index + self.context(),
                )
                &&& item.labels@ == self.sequence().subrange(
                    index + 1,
                    index + 1 + self.context(),
                )
            },
    {
        if index >= self.len() {
            return None;
        }
        let all: &[TokenID] = self.tokens.as_slice();
        assert(index + self.context_size + 1 < all.len());
        let tokens = slice_to_vec(slice_subrange(all, index, index + self.context_size));
        let labels = slice_to_vec(slice_subrange(all, index + 1, index + 1 + self.context_size));
        Some(CodeBotItem { tokens, labels })
    }
}

/// Each label of an example is the token after the one that it stands with: all
/// labels but the last are tokens of the example too, one place further on.
pub proof fn law_labels_are_one_ahead(sequence: Seq<TokenID>, context: int, index: int)
    requires
        0 <= context,
        0 <= index,
        index + context + 1 <= sequence.len(),
    ensures
        ({
            let tokens = sequence.subrange(index, index + context);
            let labels = sequence.subrange(index + 1, index + 1 + context);
            &&& tokens.len() == context && labels.len() == context
            &&& forall|i: int| 0 <= i < context ==> #[trigger] labels[i] == sequence[index + i + 1]
            &&& forall|i: int| 0 < i < context ==> labels[i - 1] == #[trigger] tokens[i]
            &&& context > 0 ==> tokens.skip(1) == labels.drop_last()
        }),
{
}

/// In a rectangle of numbers, a row starts where the rows before it end: the number in
/// row `r` and column `c` is the token at that place.
pub proof fn law_rows_stand_one_after_the_other(
    rows: Seq<Seq<TokenID>>,
    len: nat,
    r: int,
    c: int,
)
    requires
        forall|i: int| 0 <= i < rows.len() ==> (#[trigger] rows[i]).len() == len,
        0 <= r < rows.len(),
        0 <= c < len,
    ensures
        0 <= r * len + c < rows.len() * len,
        flat(rows).len() == rows.len() * len,
        flat(rows)[r * len + c] == rows[r][c] as int,
    decreases rows.len(),
{
    let shorter = rows.drop_last();
    assert(rows == shorter.push(rows.last()));
    assert(uniform(rows, len as int));
    lemma_flat_len(rows, len);
    lemma_flat_push(shorter, rows.last());
    assert forall|i: int| 0 <= i < shorter.len() implies (#[trigger] shorter[i]).len() == len by {
        assert(rows[i].len() == len);
    }
    assert(uniform(shorter, len as int));
    lemma_flat_len(shorter, len);
    assert(rows[r].len() == len);
    assert((r + 1) * len <= rows.len() * len) by (nonlinear_arith)
        requires
            r + 1 <= rows.len(),
    ;
    assert((r + 1) * len == r * len + len) by (nonlinear_arith);
    assert(0 <= r * len) by (nonlinear_arith)
        requires
            0 <= r,
    ;
    if r == rows.len() - 1 {
        assert(shorter.len() == r);
    } else {
        law_rows_stand_one_after_the_other(shorter, len, r, c);
        assert(r * len + c < shorter.len() * len);
    }
}

/// Examples form a batch where there are any and all tokens and labels have one
/// length, and only there.
pub proof fn law_even_examples_form_a_batch(items: Seq<CodeBotItem>, len: nat)
    requires
        items.len() > 0,
        items[0].tokens@.len() == len,
    ensures
        batchable(items) <==> forall|i: int|
            0 <= i < items.len() ==> (#[trigger] items[i]).tokens@.len() == len
                && items[i].labels@.len() == len,
        !batchable(Seq::empty()),
{
    if batchable(items) {
        assert forall|i: int| 0 <= i < items.len() implies (#[trigger] items[i]).tokens@.len()
            == len && items[i].labels@.len() == len by {
            assert(token_rows(items)[i].len() == len);
            assert(label_rows(items)[i].len() == len);
        }
    }
}

/// Examples that follow each other overlap: the labels of one are the tokens of the
/// next.
pub proof fn law_labels_are_the_next_tokens(
    dataset: CodeBotDataset,
    index: usize,
    next_index: usize,
    item: CodeBotItem,
    next: CodeBotItem,
)
    requires
        next_index == index + 1,
        call_ensures(CodeBotDataset::get, (&dataset, index), Some(item)),
        call_ensures(CodeBotDataset::get, (&dataset, next_index), Some(next)),
    ensures
        item.labels@ == next.tokens@,
        item.tokens@.len() == dataset.context(),
        forall|i: int|
            0 <= i < dataset.context() ==> #[trigger] item.tokens@[i] == dataset.sequence()[index
                + i],
        forall|i: int|
            0 <= i < dataset.context() ==> #[trigger] item.labels@[i] == dataset.sequence()[index
                + 1 + i],
{
}

/// There is an example for each start at which the tokens, the labels and one token more
/// fit into the sequence, and for no other.
pub proof fn law_examples_fit_into_the_sequence(
    dataset: CodeBotDataset,
    len: usize,
    index: usize,
    item: Option<CodeBotItem>,
)
    requires
        dataset.has_context(),
        call_ensures(CodeBotDataset::len, (&dataset,), len),
        call_ensures(CodeBotDataset::get, (&dataset, index), item),
    ensures
        item is Some <==> index < len,
        item is Some <==> index + dataset.context() + 1 < dataset.sequence().len(),
{
}

} // verus!

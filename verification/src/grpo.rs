//! Sums as problems with a known answer, rewards for the answers, and the batches
//! that are learned from.

use vstd::arithmetic::div_mod::{lemma_fundamental_div_mod, lemma_mod_bound};
use vstd::prelude::*;
use vstd::slice::{slice_subrange, slice_to_vec};
use vstd::string::StringExecFns;

use crate::dataset::{
    append_row, flat, law_rows_stand_one_after_the_other, lemma_flat_len, lemma_flat_push,
    repeated, rows_of, uniform,
};
use crate::ordered::TokenID;
use crate::pattern::{find_all, regex_matches, texts, NUMBER_PATTERN};
use crate::schedule::GROUP_SIZE;
use crate::sft::{format_prompt, prompt_text};
use crate::text::{
    decimal, decimal_text, digits_value, is_digits, law_decimal_digits_stand_for_the_number,
    law_other_start_is_kept, law_signs_are_read, law_stripping_leaves_the_rest, parse_i32,
    signed_value, strip_prompt, without_prefix,
};
use crate::tokenizer::BPETokenizer;

verus! {

// ---------------------------------------------------------------------------
// Rewards
// ---------------------------------------------------------------------------

/// The last of the numbers is the right one.
pub open spec fn last_is_right(numbers: Seq<Seq<char>>, truth: int) -> bool {
    numbers.len() > 0 && signed_value(numbers.last()) == Some(truth)
}

/// The last number in a response is the right one.
pub open spec fn rewarded(truth: int, response: Seq<char>) -> bool {
    match regex_matches(NUMBER_PATTERN@, response) {
        Some(numbers) => last_is_right(numbers, truth),
        None => false,
    }
}

/// Whether the last of the numbers is the right one.
pub fn reward_for(numbers: &Vec<&str>, ground_truth: i32) -> (reward: bool)
    ensures
        reward == last_is_right(texts(numbers@), ground_truth as int),
{
    if numbers.len() == 0 {
        return false;
    }
    let last: &str = numbers[numbers.len() - 1];
    assert(texts(numbers@).last() == last@);
    match parse_i32(last) {
        Some(n) => n == ground_truth,
        None => false,
    }
}

/// Whether a response earns the reward: the last number in it is the right one.
pub fn calculate_reward(ground_truth: i32, response: &str) -> (reward: bool)
    ensures
        reward == rewarded(ground_truth as int, response@),
{
    match find_all(NUMBER_PATTERN, response) {
        Some(numbers) => reward_for(&numbers, ground_truth),
        None => false,
    }
}

/// How many rewards were earned.
pub open spec fn earned(rewards: Seq<bool>) -> nat
    decreases rewards.len(),
{
    if rewards.len() == 0 {
        0
    } else if rewards.last() {
        earned(rewards.drop_last()) + 1
    } else {
        earned(rewards.drop_last())
    }
}

/// How many rewards were earned.
pub fn count_rewards(rewards: &Vec<bool>) -> (count: usize)
    ensures
        count == earned(rewards@),
        count <= rewards@.len(),
{
    let mut count: usize = 0;
    let mut i: usize = 0;
    while i < rewards.len()
        invariant
            count <= i <= rewards.len(),
            count == earned(rewards@.take(i as int)),
        decreases rewards.len() - i,
    {
        assert(rewards@.take(i + 1).drop_last() == rewards@.take(i as int));
        if rewards[i] {
            count += 1;
        }
        i += 1;
    }
    assert(rewards@.take(i as int) == rewards@);
    count
}

/// The digits of a number stand for it.
proof fn lemma_decimal(n: nat)
    ensures
        is_digits(decimal(n)),
        digits_value(decimal(n)) == n,
    decreases n,
{
    let text = decimal(n);
    if n < 10 {
        assert(text.drop_last() == Seq::<char>::empty());
        assert(digits_value(text.drop_last()) == 0);
    } else {
        lemma_decimal(n / 10);
        assert(text.drop_last() == decimal(n / 10));
        assert forall|i: int| 0 <= i < text.len() implies '0' <= #[trigger] text[i] <= '9' by {
            if i < text.len() - 1 {
                assert(text[i] == decimal(n / 10)[i]);
            }
        }
    }
}

/// The right answer, written in decimal, earns the reward where it is the last
/// number found, and any other number does not.
pub proof fn law_right_answer_is_rewarded(numbers: Seq<Seq<char>>, answer: nat, truth: int)
    requires
        numbers.len() > 0,
        numbers.last() == decimal(answer),
    ensures
        last_is_right(numbers, truth) <==> answer == truth,
{
    lemma_decimal(answer);
    let text = decimal(answer);
    assert('0' <= text[0] <= '9');
    assert(signed_value(text) == Some(answer as int));
}

// ---------------------------------------------------------------------------
// Problems
// ---------------------------------------------------------------------------

/// How many problems there are.
pub const PROBLEMS: usize = 81;

/// The first number of a problem.
pub open spec fn first_term(k: int) -> nat {
    (k / 9 + 1) as nat
}

/// The second number of a problem.
pub open spec fn second_term(k: int) -> nat {
    (k % 9 + 1) as nat
}

/// The sum that is asked for.
pub open spec fn problem_sum(k: int) -> nat {
    first_term(k) + second_term(k)
}

/// A problem as an instruction to the model.
pub open spec fn problem_prompt(k: int) -> Seq<char> {
    prompt_text(decimal(first_term(k)) + "+"@ + decimal(second_term(k)) + "="@)
}

/// The answer to a problem.
pub open spec fn problem_answer(k: int) -> Seq<char> {
    decimal(problem_sum(k))
}

/// A problem as an instruction to the model.
fn write_prompt(k: usize) -> (prompt: String)
    requires
        k < PROBLEMS,
    ensures
        prompt@ == problem_prompt(k as int),
{
    let mut instruction = decimal_text((k / 9 + 1) as u32);
    instruction.append("+");
    let second = decimal_text((k % 9 + 1) as u32);
    instruction.append(second.as_str());
    instruction.append("=");
    format_prompt(instruction.as_str())
}

/// The answer to a problem.
fn write_answer(k: usize) -> (answer: String)
    requires
        k < PROBLEMS,
    ensures
        answer@ == problem_answer(k as int),
{
    decimal_text((k / 9 + 1 + k % 9 + 1) as u32)
}

// ---------------------------------------------------------------------------
// Rows of one length
// ---------------------------------------------------------------------------

/// Nothing for the tokens of the prompt, one for each token of the response.
pub open spec fn response_mask(prompt: int, response: int) -> Seq<TokenID> {
    repeated(0, prompt) + repeated(1, response)
}

/// The length of the longest row.
pub open spec fn longest(rows: Seq<Seq<TokenID>>) -> nat
    decreases rows.len(),
{
    if rows.len() == 0 {
        0
    } else if rows.last().len() > longest(rows.drop_last()) {
        rows.last().len()
    } else {
        longest(rows.drop_last())
    }
}

/// A row filled up with zeros.
pub open spec fn padded(row: Seq<TokenID>, len: int) -> Seq<TokenID> {
    row + repeated(0, len - row.len())
}

/// All rows filled up with zeros.
pub open spec fn padded_rows(rows: Seq<Seq<TokenID>>, len: int) -> Seq<Seq<TokenID>> {
    rows.map_values(|row: Seq<TokenID>| padded(row, len))
}

/// No row is longer than the longest.
proof fn lemma_longest(rows: Seq<Seq<TokenID>>, i: int)
    requires
        0 <= i < rows.len(),
    ensures
        rows[i].len() <= longest(rows),
    decreases rows.len(),
{
    if i < rows.len() - 1 {
        lemma_longest(rows.drop_last(), i);
    }
}

/// The longest row is within a bound on all rows.
proof fn lemma_longest_bound(rows: Seq<Seq<TokenID>>, bound: nat)
    requires
        forall|i: int| 0 <= i < rows.len() ==> (#[trigger] rows[i]).len() <= bound,
    ensures
        longest(rows) <= bound,
    decreases rows.len(),
{
    if rows.len() > 0 {
        let shorter = rows.drop_last();
        assert forall|i: int| 0 <= i < shorter.len() implies (#[trigger] shorter[i]).len()
            <= bound by {
            assert(rows[i].len() <= bound);
        }
        lemma_longest_bound(shorter, bound);
        assert(rows[rows.len() - 1].len() <= bound);
    }
}

/// Nothing for the tokens of the prompt, one for each token of the response.
fn make_mask(prompt: usize, response: usize) -> (mask: Vec<TokenID>)
    ensures
        mask@ == response_mask(prompt as int, response as int),
{
    let mut mask: Vec<TokenID> = vec![0; prompt];
    let mut ones: Vec<TokenID> = vec![1; response];
    assert(mask@ == repeated(0, prompt as int));
    assert(ones@ == repeated(1, response as int));
    mask.append(&mut ones);
    mask
}

/// The tokens of a prompt and of a response, and which of them are the response.
pub fn join_response(
    prompt: Vec<TokenID>,
    response: Vec<TokenID>,
) -> (row: (Vec<TokenID>, Vec<TokenID>))
    ensures
        row.0@ == prompt@ + response@,
        row.1@ == response_mask(prompt@.len() as int, response@.len() as int),
        row.1@.len() == row.0@.len(),
{
    let mask = make_mask(prompt.len(), response.len());
    let mut ids = prompt;
    let mut more = response;
    ids.append(&mut more);
    (ids, mask)
}

/// Fills all rows up with zeros.
pub fn pad_rows(rows: &Vec<Vec<TokenID>>, len: usize) -> (filled: Vec<Vec<TokenID>>)
    requires
        forall|i: int| 0 <= i < rows@.len() ==> (#[trigger] rows@[i])@.len() <= len,
    ensures
        rows_of(filled@) == padded_rows(rows_of(rows@), len as int),
        uniform(rows_of(filled@), len as int),
{
    let mut filled: Vec<Vec<TokenID>> = Vec::new();
    let mut i: usize = 0;
    while i < rows.len()
        invariant
            i <= rows.len(),
            filled@.len() == i,
            forall|j: int| 0 <= j < rows@.len() ==> (#[trigger] rows@[j])@.len() <= len,
            forall|j: int| 0 <= j < i ==> (#[trigger] filled@[j])@ == padded(rows@[j]@, len as int),
        decreases rows.len() - i,
    {
        let mut row = rows[i].clone();
        assert(row@ == rows@[i as int]@);
        let ghost before = row@;
        row.resize(len, 0);
        proof {
            assert forall|j: int| 0 <= j < len implies row@[j] == padded(before, len as int)[j] by {
                if j < before.len() {
                    assert(row@.subrange(0, before.len() as int)[j] == before[j]);
                }
            }
            assert(row@ == padded(before, len as int));
        }
        filled.push(row);
        i += 1;
    }
    assert(rows_of(filled@) == padded_rows(rows_of(rows@), len as int));
    filled
}

/// Rows one after the other.
fn flatten_rows(rows: &Vec<Vec<TokenID>>) -> (all: Vec<i32>)
    ensures
        all@ == flat(rows_of(rows@)),
{
    let ghost given = rows_of(rows@);
    let mut all: Vec<i32> = Vec::new();
    let mut i: usize = 0;
    assert(flat(given.take(0)) == Seq::<i32>::empty());
    while i < rows.len()
        invariant
            i <= rows.len(),
            given == rows_of(rows@),
            all@ == flat(given.take(i as int)),
        decreases rows.len() - i,
    {
        append_row(&mut all, &rows[i]);
        proof {
            lemma_flat_push(given.take(i as int), given[i as int]);
            assert(given.take(i + 1) == given.take(i as int).push(given[i as int]));
        }
        i += 1;
    }
    assert(given.take(i as int) == given);
    all
}

// ---------------------------------------------------------------------------
// The problems as a dataset
// ---------------------------------------------------------------------------

/// A problem with its answer, as tokens, and which of these are the answer.
#[derive(Debug, Clone)]
pub struct CodeBotGRPOItem {
    /// The problem as an instruction to the model.
    pub prompt: String,
    /// The right sum.
    pub gt: i32,
    /// The tokens of prompt and answer.
    pub ids: Vec<TokenID>,
    /// One for each token of the answer, zero for all others.
    pub mask: Vec<TokenID>,
}

/// The tokens of a problem and of its answer.
pub open spec fn problem_ids(tokenizer: BPETokenizer, k: int) -> Seq<TokenID> {
    tokenizer.ids_of(problem_prompt(k)) + tokenizer.ids_of(problem_answer(k))
}

/// Which tokens of a problem are the answer.
pub open spec fn problem_mask(tokenizer: BPETokenizer, k: int) -> Seq<TokenID> {
    response_mask(
        tokenizer.ids_of(problem_prompt(k)).len() as int,
        tokenizer.ids_of(problem_answer(k)).len() as int,
    )
}

/// The tokens of the first `n` problems.
pub open spec fn problem_rows(tokenizer: BPETokenizer, n: int) -> Seq<Seq<TokenID>> {
    Seq::new(n as nat, |k: int| problem_ids(tokenizer, k))
}

/// A problem and its answer can be encoded.
pub open spec fn problem_accepted(tokenizer: BPETokenizer, k: int) -> bool {
    tokenizer.accepts(problem_prompt(k)) && tokenizer.accepts(problem_answer(k))
}

/// All problems and their answers can be encoded.
pub open spec fn problems_accepted(tokenizer: BPETokenizer) -> bool {
    forall|k: int| 0 <= k < PROBLEMS ==> #[trigger] problem_accepted(tokenizer, k)
}

/// The sums of two numbers from one to nine.
#[derive(Debug, Clone)]
pub struct CodeBotGRPODataset {
    prompts: Vec<String>,
    gts: Vec<i32>,
    idss: Vec<Vec<TokenID>>,
    masks: Vec<Vec<TokenID>>,
}

/// The texts of strings.
pub open spec fn strings(list: Seq<String>) -> Seq<Seq<char>> {
    list.map_values(|text: String| text@)
}

impl CodeBotGRPODataset {
    /// The problems as instructions.
    pub closed spec fn prompts(&self) -> Seq<Seq<char>> {
        strings(self.prompts@)
    }

    /// The right sums.
    pub closed spec fn gts(&self) -> Seq<i32> {
        self.gts@
    }

    /// The tokens of problems and answers.
    pub closed spec fn id_rows(&self) -> Seq<Seq<TokenID>> {
        rows_of(self.idss@)
    }

    /// Which tokens are the answers.
    pub closed spec fn mask_rows(&self) -> Seq<Seq<TokenID>> {
        rows_of(self.masks@)
    }

    /// Every problem has all its parts.
    pub open spec fn wf(&self) -> bool {
        &&& self.prompts().len() == self.id_rows().len()
        &&& self.gts().len() == self.id_rows().len()
        &&& self.mask_rows().len() == self.id_rows().len()
    }

    /// These are all the problems, in order, filled up to the length of the
    /// longest.
    pub open spec fn holds_problems(&self, tokenizer: BPETokenizer) -> bool {
        let len = longest(problem_rows(tokenizer, PROBLEMS as int)) as int;
        &&& self.wf()
        &&& self.id_rows().len() == PROBLEMS
        &&& uniform(self.id_rows(), len)
        &&& uniform(self.mask_rows(), len)
        &&& forall|k: int|
            0 <= k < PROBLEMS ==> #[trigger] self.prompts()[k] == problem_prompt(k)
        &&& forall|k: int| 0 <= k < PROBLEMS ==> #[trigger] self.gts()[k] == problem_sum(k)
        &&& forall|k: int|
            0 <= k < PROBLEMS ==> #[trigger] self.id_rows()[k] == padded(
                problem_ids(tokenizer, k),
                len,
            )
        &&& forall|k: int|
            0 <= k < PROBLEMS ==> #[trigger] self.mask_rows()[k] == padded(
                problem_mask(tokenizer, k),
                len,
            )
    }

    /// All problems, filled up to the length of the longest.
    pub fn new(tokenizer: &BPETokenizer) -> (dataset: CodeBotGRPODataset)
        requires
            problems_accepted(*tokenizer),
        ensures
            dataset.holds_problems(*tokenizer),
    {
        let mut prompts: Vec<String> = Vec::new();
        let mut gts: Vec<i32> = Vec::new();
        let mut idss: Vec<Vec<TokenID>> = Vec::new();
        let mut masks: Vec<Vec<TokenID>> = Vec::new();
        let mut max_len: usize = 0;
        let mut k: usize = 0;
        assert(problem_rows(*tokenizer, 0) == Seq::<Seq<TokenID>>::empty());
        while k < PROBLEMS
            invariant
                k <= PROBLEMS,
                problems_accepted(*tokenizer),
                prompts@.len() == k,
                gts@.len() == k,
                idss@.len() == k,
                masks@.len() == k,
                max_len == longest(problem_rows(*tokenizer, k as int)),
                forall|j: int| 0 <= j < k ==> (#[trigger] prompts@[j])@ == problem_prompt(j),
                forall|j: int| 0 <= j < k ==> #[trigger] gts@[j] == problem_sum(j),
                forall|j: int| 0 <= j < k ==> (#[trigger] idss@[j])@ == problem_ids(*tokenizer, j),
                forall|j: int|
                    0 <= j < k ==> (#[trigger] masks@[j])@ == problem_mask(*tokenizer, j),
            decreases PROBLEMS - k,
        {
            let prompt = write_prompt(k);
            let answer = write_answer(k);
            assert(problem_accepted(*tokenizer, k as int));
            let (ids, mask) = join_response(
                tokenizer.encode(prompt.as_str()),
                tokenizer.encode(answer.as_str()),
            );
            proof {
                let more = problem_rows(*tokenizer, k + 1);
                assert(more.drop_last() == problem_rows(*tokenizer, k as int));
                assert(more.last() == ids@);
            }
            if ids.len() > max_len {
                max_len = ids.len();
            }
            prompts.push(prompt);
            gts.push((k / 9 + 1 + k % 9 + 1) as i32);
            idss.push(ids);
            masks.push(mask);
            k += 1;
        }
        proof {
            let rows = problem_rows(*tokenizer, PROBLEMS as int);
            assert forall|j: int| 0 <= j < idss@.len() implies (#[trigger] idss@[j])@.len()
                <= max_len by {
                lemma_longest(rows, j);
                assert(rows[j] == problem_ids(*tokenizer, j));
            }
            assert forall|j: int| 0 <= j < masks@.len() implies (#[trigger] masks@[j])@.len()
                <= max_len by {
                lemma_longest(rows, j);
                assert(rows[j] == problem_ids(*tokenizer, j));
            }
        }
        let filled_ids = pad_rows(&idss, max_len);
        let filled_masks = pad_rows(&masks, max_len);
        let dataset = CodeBotGRPODataset { prompts, gts, idss: filled_ids, masks: filled_masks };
        proof {
            assert forall|j: int| 0 <= j < PROBLEMS implies #[trigger] dataset.id_rows()[j]
                == padded(problem_ids(*tokenizer, j), max_len as int) by {
                assert(rows_of(idss@)[j] == idss@[j]@);
            }
            assert forall|j: int| 0 <= j < PROBLEMS implies #[trigger] dataset.mask_rows()[j]
                == padded(problem_mask(*tokenizer, j), max_len as int) by {
                assert(rows_of(masks@)[j] == masks@[j]@);
            }
        }
        dataset
    }

    /// All problems, filled up to the length of the longest, or `None` where the
    /// search for the words of one is given up.
    pub fn try_new(tokenizer: &BPETokenizer) -> (dataset: Option<CodeBotGRPODataset>)
        ensures
            dataset is Some <==> problems_accepted(*tokenizer),
            dataset matches Some(dataset) ==> dataset.holds_problems(*tokenizer),
    {
        let mut k: usize = 0;
        while k < PROBLEMS
            invariant
                k <= PROBLEMS,
                forall|j: int| 0 <= j < k ==> #[trigger] problem_accepted(*tokenizer, j),
            decreases PROBLEMS - k,
        {
            let prompt = write_prompt(k);
            let answer = write_answer(k);
            if !tokenizer.can_encode(prompt.as_str()) || !tokenizer.can_encode(answer.as_str()) {
                assert(!problem_accepted(*tokenizer, k as int));
                return None;
            }
            k += 1;
        }
        Some(CodeBotGRPODataset::new(tokenizer))
    }

    /// How many problems there are.
    pub fn len(&self) -> (len: usize)
        ensures
            len == self.id_rows().len(),
    {
        self.idss.len()
    }

    /// A problem.
    pub fn get(&self, index: usize) -> (item: Option<CodeBotGRPOItem>)
        requires
            self.wf(),
        ensures
            item is Some <==> index < self.id_rows().len(),
            item matches Some(item) ==> {
                &&& item.prompt@ == self.prompts()[index as int]
                &&& item.gt == self.gts()[index as int]
                &&& item.ids@ == self.id_rows()[index as int]
                &&& item.mask@ == self.mask_rows()[index as int]
            },
    {
        if index >= self.len() {
            return None;
        }
        assert(self.prompts().len() == self.prompts@.len());
        assert(self.mask_rows().len() == self.masks@.len());
        let prompt = self.prompts[index].clone();
        let ids = self.idss[index].clone();
        let mask = self.masks[index].clone();
        assert(prompt@ == self.prompts()[index as int]);
        assert(ids@ == self.id_rows()[index as int]);
        assert(mask@ == self.mask_rows()[index as int]);
        Some(CodeBotGRPOItem { prompt, gt: self.gts[index], ids, mask })
    }
}

/// The mask of a problem has a one for each token of the answer and a zero for
/// every other, and is as long as the tokens.
pub proof fn law_mask_marks_the_answer(tokenizer: BPETokenizer, k: int, len: int)
    requires
        problem_ids(tokenizer, k).len() <= len,
    ensures
        padded(problem_mask(tokenizer, k), len).len() == len,
        padded(problem_ids(tokenizer, k), len).len() == len,
        forall|i: int|
            0 <= i < len ==> #[trigger] padded(problem_mask(tokenizer, k), len)[i] == (
            if tokenizer.ids_of(problem_prompt(k)).len() <= i < problem_ids(tokenizer, k).len() {
                1
            } else {
                0int
            }),
{
}

/// Every prompt gets as many samples as a group is large, one after the other, and
/// no sample is without a prompt.
pub proof fn law_every_prompt_gets_a_group(prompts: int, group_size: int, k: int, r: int)
    requires
        0 < group_size,
        0 <= k < prompts,
        0 <= r < prompts * group_size,
    ensures
        0 <= r / group_size < prompts,
        r / group_size == k <==> k * group_size <= r < k * group_size + group_size,
        k * group_size + group_size <= prompts * group_size,
{
    let q = r / group_size;
    let left = r % group_size;
    lemma_fundamental_div_mod(r, group_size);
    lemma_mod_bound(r, group_size);
    assert(group_size * q == q * group_size) by (nonlinear_arith);
    assert(q < prompts) by (nonlinear_arith)
        requires
            q * group_size <= r,
            r < prompts * group_size,
            0 < group_size,
    ;
    assert(0 <= q) by (nonlinear_arith)
        requires
            r == q * group_size + left,
            0 <= r,
            left < group_size,
            0 < group_size,
    ;
    assert(q == k <==> k * group_size <= q * group_size + left < k * group_size + group_size)
        by (nonlinear_arith)
        requires
            0 <= left < group_size,
    ;
    assert(k * group_size + group_size <= prompts * group_size) by (nonlinear_arith)
        requires
            k + 1 <= prompts,
            0 < group_size,
    ;
}

/// Every pair of numbers from one to nine is asked for, once.
pub proof fn law_every_sum_is_asked(i: int, j: int)
    requires
        1 <= i <= 9,
        1 <= j <= 9,
    ensures
        exists|k: int|
            0 <= k < PROBLEMS && first_term(k) == i && #[trigger] second_term(k) == j,
        forall|k: int, m: int|
            0 <= k < PROBLEMS && 0 <= m < PROBLEMS && first_term(k) == first_term(m)
                && #[trigger] second_term(k) == #[trigger] second_term(m) ==> k == m,
{
    let k = 9 * (i - 1) + (j - 1);
    assert(first_term(k) == i && second_term(k) == j);
}

// ---------------------------------------------------------------------------
// Batches
// ---------------------------------------------------------------------------

/// Problems or samples, with their tokens and masks as two rectangles of numbers,
/// row by row.
#[derive(Debug, Clone)]
pub struct CodeBotGRPOBatch {
    /// The prompts.
    pub prompts: Vec<String>,
    /// The right sums.
    pub gts: Vec<i32>,
    /// The tokens of all rows.
    pub ids: Vec<i32>,
    /// The masks of all rows.
    pub masks: Vec<i32>,
    /// How many rows there are.
    pub rows: usize,
    /// How long each is.
    pub cols: usize,
}

/// Makes batches out of problems.
#[derive(Debug, Clone, Copy)]
pub struct CodeBotGRPOBatcher;

/// The tokens of problems.
pub open spec fn item_ids(items: Seq<CodeBotGRPOItem>) -> Seq<Seq<TokenID>> {
    items.map_values(|item: CodeBotGRPOItem| item.ids@)
}

/// The masks of problems.
pub open spec fn item_masks(items: Seq<CodeBotGRPOItem>) -> Seq<Seq<TokenID>> {
    items.map_values(|item: CodeBotGRPOItem| item.mask@)
}

/// There are problems, and all tokens and masks have one length.
pub open spec fn grpo_batchable(items: Seq<CodeBotGRPOItem>) -> bool {
    &&& items.len() > 0
    &&& uniform(item_ids(items), items[0].ids@.len() as int)
    &&& uniform(item_masks(items), items[0].ids@.len() as int)
}

impl CodeBotGRPOBatcher {
    /// Whether the problems can form a batch.
    pub fn can_batch(&self, items: &Vec<CodeBotGRPOItem>) -> (can: bool)
        ensures
            can == grpo_batchable(items@),
    {
        if items.len() == 0 {
            return false;
        }
        let len: usize = items[0].ids.len();
        let mut i: usize = 0;
        while i < items.len()
            invariant
                0 < items.len(),
                i <= items.len(),
                len == items@[0].ids@.len(),
                forall|j: int|
                    0 <= j < i ==> (#[trigger] items@[j]).ids@.len() == len
                        && items@[j].mask@.len() == len,
            decreases items.len() - i,
        {
            if items[i].ids.len() != len || items[i].mask.len() != len {
                assert(item_ids(items@)[i as int] == items@[i as int].ids@);
                assert(item_masks(items@)[i as int] == items@[i as int].mask@);
                return false;
            }
            i += 1;
        }
        true
    }

    /// The problems as a batch.
    pub fn batch(&self, items: Vec<CodeBotGRPOItem>) -> (batch: CodeBotGRPOBatch)
        requires
            grpo_batchable(items@),
        ensures
            batch.ids@ == flat(item_ids(items@)),
            batch.masks@ == flat(item_masks(items@)),
            batch.rows == items@.len(),
            batch.cols == items@[0].ids@.len(),
            batch.ids@.len() == batch.rows * batch.cols,
            batch.masks@.len() == batch.rows * batch.cols,
            strings(batch.prompts@) == items@.map_values(|item: CodeBotGRPOItem| item.prompt@),
            batch.gts@ == items@.map_values(|item: CodeBotGRPOItem| item.gt),
            forall|r: int, c: int|
                0 <= r < batch.rows && 0 <= c < batch.cols ==> batch.ids@[r * batch.cols + c]
                    == #[trigger] items@[r].ids@[c] as int,
            forall|r: int, c: int|
                0 <= r < batch.rows && 0 <= c < batch.cols ==> batch.masks@[r * batch.cols + c]
                    == #[trigger] items@[r].mask@[c] as int,
    {
        let ghost id_rows = item_ids(items@);
        let ghost mask_rows = item_masks(items@);
        let mut prompts: Vec<String> = Vec::new();
        let mut gts: Vec<i32> = Vec::new();
        let mut ids: Vec<i32> = Vec::new();
        let mut masks: Vec<i32> = Vec::new();
        let mut i: usize = 0;
        proof {
            assert(flat(id_rows.take(0)) == Seq::<i32>::empty());
            assert(flat(mask_rows.take(0)) == Seq::<i32>::empty());
        }
        while i < items.len()
            invariant
                i <= items.len(),
                id_rows == item_ids(items@),
                mask_rows == item_masks(items@),
                ids@ == flat(id_rows.take(i as int)),
                masks@ == flat(mask_rows.take(i as int)),
                prompts@.len() == i,
                gts@.len() == i,
                forall|j: int| 0 <= j < i ==> (#[trigger] prompts@[j])@ == items@[j].prompt@,
                forall|j: int| 0 <= j < i ==> #[trigger] gts@[j] == items@[j].gt,
            decreases items.len() - i,
        {
            append_row(&mut ids, &items[i].ids);
            append_row(&mut masks, &items[i].mask);
            prompts.push(items[i].prompt.clone());
            gts.push(items[i].gt);
            proof {
                lemma_flat_push(id_rows.take(i as int), id_rows[i as int]);
                lemma_flat_push(mask_rows.take(i as int), mask_rows[i as int]);
                assert(id_rows.take(i + 1) == id_rows.take(i as int).push(id_rows[i as int]));
                assert(mask_rows.take(i + 1) == mask_rows.take(i as int).push(
                    mask_rows[i as int],
                ));
            }
            i += 1;
        }
        proof {
            assert(id_rows.take(i as int) == id_rows);
            assert(mask_rows.take(i as int) == mask_rows);
            lemma_flat_len(id_rows, items@[0].ids@.len());
            lemma_flat_len(mask_rows, items@[0].ids@.len());
            let cols = items@[0].ids@.len();
            assert forall|r: int, c: int| 0 <= r < items@.len() && 0 <= c < cols implies ids@[r
                * cols + c] == #[trigger] items@[r].ids@[c] as int by {
                law_rows_stand_one_after_the_other(id_rows, cols, r, c);
            }
            assert forall|r: int, c: int| 0 <= r < items@.len() && 0 <= c < cols implies masks@[r
                * cols + c] == #[trigger] items@[r].mask@[c] as int by {
                law_rows_stand_one_after_the_other(mask_rows, cols, r, c);
            }
        }
        CodeBotGRPOBatch { prompts, gts, ids, masks, rows: items.len(), cols: items[0].ids.len() }
    }
}

// ---------------------------------------------------------------------------
// Samples
// ---------------------------------------------------------------------------

/// A response of the model to a problem, and whether it earned the reward.
#[derive(Debug, Clone)]
pub struct GrpoSample {
    /// The problem as an instruction.
    pub prompt: String,
    /// What the model said.
    pub response: String,
    /// Whether it was right.
    pub reward: bool,
}

/// Judges what the model made of a prompt: the response is what follows the
/// prompt, or the whole text where it starts in another way.
pub fn judge_sample(prompt: &str, ground_truth: i32, full_text: &str) -> (sample: GrpoSample)
    ensures
        sample.prompt@ == prompt@,
        sample.response@ == without_prefix(full_text@, prompt@),
        sample.reward == rewarded(
            ground_truth as int,
            without_prefix(full_text@, prompt@),
        ),
{
    let response = strip_prompt(full_text, prompt);
    let reward = calculate_reward(ground_truth, response.as_str());
    GrpoSample { prompt: prompt.to_owned(), response, reward }
}

/// The samples are what the model made of the prompts, `group_size` for each: the
/// texts of the first prompt come first, then those of the next.
pub open spec fn judged(
    samples: Seq<GrpoSample>,
    prompts: Seq<String>,
    gts: Seq<i32>,
    texts: Seq<String>,
    group_size: int,
) -> bool {
    &&& samples.len() == texts.len()
    &&& forall|r: int|
        0 <= r < texts.len() ==> {
            let k = r / group_size;
            let response = without_prefix(texts[r]@, prompts[k]@);
            &&& (#[trigger] samples[r]).prompt@ == prompts[k]@
            &&& samples[r].response@ == response
            &&& samples[r].reward == rewarded(gts[k] as int, response)
        }
}

/// Judges what the model made of several prompts, each tried `group_size` times.
pub fn judge_groups(
    prompts: &Vec<String>,
    gts: &Vec<i32>,
    texts: &Vec<String>,
    group_size: usize,
) -> (samples: Vec<GrpoSample>)
    requires
        prompts@.len() == gts@.len(),
        texts@.len() == prompts@.len() * group_size,
    ensures
        judged(samples@, prompts@, gts@, texts@, group_size as int),
{
    let mut samples: Vec<GrpoSample> = Vec::new();
    let mut r: usize = 0;
    proof {
        if group_size == 0 {
            assert(prompts@.len() * group_size == 0) by (nonlinear_arith)
                requires
                    group_size == 0,
            ;
        }
    }
    while r < texts.len()
        invariant
            r <= texts.len(),
            texts@.len() > 0 ==> group_size > 0,
            samples@.len() == r,
            prompts@.len() == gts@.len(),
            texts@.len() == prompts@.len() * group_size,
            forall|j: int|
                0 <= j < r ==> {
                    let k = j / group_size as int;
                    let response = without_prefix(texts@[j]@, prompts@[k]@);
                    &&& (#[trigger] samples@[j]).prompt@ == prompts@[k]@
                    &&& samples@[j].response@ == response
                    &&& samples@[j].reward == rewarded(gts@[k] as int, response)
                },
        decreases texts.len() - r,
    {
        proof {
            assert(prompts@.len() > 0) by (nonlinear_arith)
                requires
                    prompts@.len() * group_size > 0,
            ;
            law_every_prompt_gets_a_group(
                prompts@.len() as int,
                group_size as int,
                0,
                r as int,
            );
        }
        let k: usize = r / group_size;
        samples.push(judge_sample(prompts[k].as_str(), gts[k], texts[r].as_str()));
        r += 1;
    }
    samples
}

/// Judges what the model made of several prompts, each tried as often as a group
/// is large.
pub fn judge_group(
    prompts: &Vec<String>,
    gts: &Vec<i32>,
    texts: &Vec<String>,
) -> (samples: Vec<GrpoSample>)
    requires
        prompts@.len() == gts@.len(),
        texts@.len() == prompts@.len() * GROUP_SIZE,
    ensures
        judged(samples@, prompts@, gts@, texts@, GROUP_SIZE as int),
{
    judge_groups(prompts, gts, texts, GROUP_SIZE)
}

/// The rewards of samples.
pub open spec fn rewards_of(samples: Seq<GrpoSample>) -> Seq<bool> {
    samples.map_values(|sample: GrpoSample| sample.reward)
}

/// The samples that were made for the same prompt as one of them.
pub open spec fn group_of(samples: Seq<GrpoSample>, group_size: int, r: int) -> Seq<GrpoSample> {
    let start = r / group_size * group_size;
    samples.subrange(start, start + group_size)
}

/// For each sample, how many rewards were earned in its group.
pub open spec fn counted_in_groups(
    counts: Seq<usize>,
    samples: Seq<GrpoSample>,
    group_size: int,
) -> bool {
    &&& counts.len() == samples.len()
    &&& forall|r: int|
        0 <= r < samples.len() ==> #[trigger] counts[r] == earned(
            rewards_of(group_of(samples, group_size, r)),
        ) && counts[r] <= group_size
}

/// For each sample, how many rewards were earned in its group of `group_size`.
pub fn rewards_in_groups(samples: &Vec<GrpoSample>, group_size: usize) -> (counts: Vec<usize>)
    requires
        samples@.len() > 0 ==> group_size > 0 && samples@.len() % group_size as nat == 0,
    ensures
        counted_in_groups(counts@, samples@, group_size as int),
{
    let mut all: Vec<usize> = Vec::new();
    let mut r: usize = 0;
    while r < samples.len()
        invariant
            r <= samples.len(),
            samples@.len() > 0 ==> group_size > 0 && samples@.len() % group_size as nat == 0,
            all@.len() == r,
            forall|j: int|
                0 <= j < r ==> #[trigger] all@[j] == earned(
                    rewards_of(group_of(samples@, group_size as int, j)),
                ) && all@[j] <= group_size,
        decreases samples.len() - r,
    {
        let ghost groups = samples@.len() as int / group_size as int;
        let ghost k = r as int / group_size as int;
        proof {
            lemma_fundamental_div_mod(samples@.len() as int, group_size as int);
            assert(samples@.len() == groups * group_size) by (nonlinear_arith)
                requires
                    samples@.len() == group_size * groups + 0,
            ;
            assert(groups > 0) by (nonlinear_arith)
                requires
                    groups * group_size > 0,
                    group_size > 0,
            ;
            law_every_prompt_gets_a_group(groups, group_size as int, 0, r as int);
            law_every_prompt_gets_a_group(groups, group_size as int, k, r as int);
        }
        let start: usize = r / group_size * group_size;
        let ghost group = group_of(samples@, group_size as int, r as int);
        let mut rewards: Vec<bool> = Vec::new();
        let mut i: usize = 0;
        while i < group_size
            invariant
                i <= group_size,
                start + group_size <= samples.len(),
                group == samples@.subrange(start as int, start + group_size),
                rewards@.len() == i,
                forall|j: int| 0 <= j < i ==> #[trigger] rewards@[j] == group[j].reward,
            decreases group_size - i,
        {
            rewards.push(samples[start + i].reward);
            i += 1;
        }
        assert(rewards@ == rewards_of(group));
        all.push(count_rewards(&rewards));
        r += 1;
    }
    all
}

/// For each sample, how many rewards were earned in its group.
pub fn group_rewards(samples: &Vec<GrpoSample>) -> (counts: Vec<usize>)
    requires
        samples@.len() % GROUP_SIZE as nat == 0,
    ensures
        counted_in_groups(counts@, samples@, GROUP_SIZE as int),
{
    rewards_in_groups(samples, GROUP_SIZE)
}

/// The last tokens of a row, at most so many.
pub open spec fn last_tokens(row: Seq<TokenID>, max: int) -> Seq<TokenID> {
    if row.len() > max {
        row.skip(row.len() - max)
    } else {
        row
    }
}

/// The last tokens of a row, at most so many.
pub fn keep_last(row: &[TokenID], max: usize) -> (kept: Vec<TokenID>)
    ensures
        kept@ == last_tokens(row@, max as int),
        kept@.len() <= max,
{
    if row.len() > max {
        let kept = slice_subrange(row, row.len() - max, row.len());
        slice_to_vec(kept)
    } else {
        slice_to_vec(row)
    }
}

/// Both texts of a sample can be encoded.
pub open spec fn sample_accepted(tokenizer: BPETokenizer, sample: GrpoSample) -> bool {
    tokenizer.accepts(sample.prompt@) && tokenizer.accepts(sample.response@)
}

/// The last tokens of a sample.
pub open spec fn sample_ids(tokenizer: BPETokenizer, sample: GrpoSample, max: int) -> Seq<TokenID> {
    last_tokens(tokenizer.ids_of(sample.prompt@) + tokenizer.ids_of(sample.response@), max)
}

/// Which of the last tokens of a sample are the response.
pub open spec fn sample_mask(tokenizer: BPETokenizer, sample: GrpoSample, max: int) -> Seq<
    TokenID,
> {
    last_tokens(
        response_mask(
            tokenizer.ids_of(sample.prompt@).len() as int,
            tokenizer.ids_of(sample.response@).len() as int,
        ),
        max,
    )
}

/// The last tokens of all samples.
pub open spec fn sample_rows(
    tokenizer: BPETokenizer,
    samples: Seq<GrpoSample>,
    max: int,
) -> Seq<Seq<TokenID>> {
    samples.map_values(|sample: GrpoSample| sample_ids(tokenizer, sample, max))
}

/// The masks of all samples.
pub open spec fn sample_masks(
    tokenizer: BPETokenizer,
    samples: Seq<GrpoSample>,
    max: int,
) -> Seq<Seq<TokenID>> {
    samples.map_values(|sample: GrpoSample| sample_mask(tokenizer, sample, max))
}

/// The batch holds the given rows, filled up to the length of the longest, with
/// sums of zero.
pub open spec fn holds_rows(
    batch: CodeBotGRPOBatch,
    prompts: Seq<Seq<char>>,
    rows: Seq<Seq<TokenID>>,
    masks: Seq<Seq<TokenID>>,
) -> bool {
    let len = longest(rows) as int;
    &&& batch.ids@ == flat(padded_rows(rows, len))
    &&& batch.masks@ == flat(padded_rows(masks, len))
    &&& batch.rows == rows.len()
    &&& batch.cols == len
    &&& batch.ids@.len() == batch.rows * batch.cols
    &&& batch.masks@.len() == batch.rows * batch.cols
    &&& strings(batch.prompts@) == prompts
    &&& batch.gts@ == Seq::new(rows.len(), |i: int| 0i32)
}

/// The batch holds the last tokens of the given samples.
pub open spec fn holds_samples(
    batch: CodeBotGRPOBatch,
    tokenizer: BPETokenizer,
    samples: Seq<GrpoSample>,
    max: int,
) -> bool {
    holds_rows(
        batch,
        samples.map_values(|sample: GrpoSample| sample.prompt@),
        sample_rows(tokenizer, samples, max),
        sample_masks(tokenizer, samples, max),
    )
}

/// Rows of tokens and their masks as a batch, filled up to the length of the
/// longest.
pub fn batch_rows(
    prompts: Vec<String>,
    rows: &Vec<Vec<TokenID>>,
    masks: &Vec<Vec<TokenID>>,
) -> (batch: CodeBotGRPOBatch)
    requires
        rows@.len() == masks@.len(),
        forall|i: int|
            0 <= i < rows@.len() ==> (#[trigger] masks@[i])@.len() == rows@[i]@.len(),
    ensures
        holds_rows(batch, strings(prompts@), rows_of(rows@), rows_of(masks@)),
{
    let ghost given = rows_of(rows@);
    let mut max_len: usize = 0;
    let mut i: usize = 0;
    assert(given.take(0) == Seq::<Seq<TokenID>>::empty());
    while i < rows.len()
        invariant
            i <= rows.len(),
            given == rows_of(rows@),
            max_len == longest(given.take(i as int)),
        decreases rows.len() - i,
    {
        proof {
            assert(given.take(i + 1).drop_last() == given.take(i as int));
            assert(given.take(i + 1).last() == rows@[i as int]@);
        }
        if rows[i].len() > max_len {
            max_len = rows[i].len();
        }
        i += 1;
    }
    proof {
        assert(given.take(i as int) == given);
        assert forall|j: int| 0 <= j < rows@.len() implies (#[trigger] rows@[j])@.len()
            <= max_len by {
            lemma_longest(given, j);
        }
        assert forall|j: int| 0 <= j < masks@.len() implies (#[trigger] masks@[j])@.len()
            <= max_len by {
            lemma_longest(given, j);
        }
    }
    let filled_rows = pad_rows(rows, max_len);
    let filled_masks = pad_rows(masks, max_len);
    let ids = flatten_rows(&filled_rows);
    let flat_masks = flatten_rows(&filled_masks);
    proof {
        assert(rows_of(filled_rows@).len() == rows@.len());
        assert(rows_of(filled_masks@).len() == rows@.len());
        lemma_flat_len(rows_of(filled_rows@), max_len as nat);
        lemma_flat_len(rows_of(filled_masks@), max_len as nat);
    }
    let gts: Vec<i32> = vec![0; rows.len()];
    assert(gts@ == Seq::new(given.len(), |i: int| 0i32));
    CodeBotGRPOBatch { prompts, gts, ids, masks: flat_masks, rows: rows.len(), cols: max_len }
}

/// The samples as a batch to learn from: of each the last tokens, at most
/// `max_context_len`, filled up to the length of the longest.
pub fn assemble_group(
    tokenizer: &BPETokenizer,
    samples: &Vec<GrpoSample>,
    max_context_len: usize,
) -> (batch: CodeBotGRPOBatch)
    requires
        forall|i: int|
            0 <= i < samples@.len() ==> sample_accepted(*tokenizer, #[trigger] samples@[i]),
    ensures
        holds_samples(batch, *tokenizer, samples@, max_context_len as int),
        batch.cols <= max_context_len,
{
    let ghost max = max_context_len as int;
    let ghost rows = sample_rows(*tokenizer, samples@, max);
    let ghost mask_rows = sample_masks(*tokenizer, samples@, max);
    let mut prompts: Vec<String> = Vec::new();
    let mut all_ids: Vec<Vec<TokenID>> = Vec::new();
    let mut all_masks: Vec<Vec<TokenID>> = Vec::new();
    let mut i: usize = 0;
    while i < samples.len()
        invariant
            i <= samples.len(),
            max == max_context_len,
            rows == sample_rows(*tokenizer, samples@, max),
            mask_rows == sample_masks(*tokenizer, samples@, max),
            forall|j: int|
                0 <= j < samples@.len() ==> sample_accepted(*tokenizer, #[trigger] samples@[j]),
            prompts@.len() == i,
            all_ids@.len() == i,
            all_masks@.len() == i,
            forall|j: int| 0 <= j < i ==> (#[trigger] prompts@[j])@ == samples@[j].prompt@,
            forall|j: int|
                0 <= j < i ==> (#[trigger] all_ids@[j])@ == rows[j] && all_ids@[j]@.len()
                    <= max_context_len,
            forall|j: int|
                0 <= j < i ==> (#[trigger] all_masks@[j])@ == mask_rows[j] && all_masks@[j]@.len()
                    == all_ids@[j]@.len(),
        decreases samples.len() - i,
    {
        let sample = &samples[i];
        assert(sample_accepted(*tokenizer, samples@[i as int]));
        let (ids, mask) = join_response(
            tokenizer.encode(sample.prompt.as_str()),
            tokenizer.encode(sample.response.as_str()),
        );
        let kept_ids = keep_last(&ids, max_context_len);
        let kept_mask = keep_last(&mask, max_context_len);
        assert(rows[i as int] == kept_ids@);
        assert(mask_rows[i as int] == kept_mask@);
        prompts.push(sample.prompt.clone());
        all_ids.push(kept_ids);
        all_masks.push(kept_mask);
        i += 1;
    }
    proof {
        assert(rows_of(all_ids@) == rows);
        assert(rows_of(all_masks@) == mask_rows);
        assert(strings(prompts@) == samples@.map_values(|sample: GrpoSample| sample.prompt@));
        lemma_longest_bound(rows, max_context_len as nat);
    }
    batch_rows(prompts, &all_ids, &all_masks)
}

/// The samples as a batch to learn from, or `None` where the search for the words
/// of one is given up.
pub fn try_assemble_group(
    tokenizer: &BPETokenizer,
    samples: &Vec<GrpoSample>,
    max_context_len: usize,
) -> (batch: Option<CodeBotGRPOBatch>)
    ensures
        batch is Some <==> forall|i: int|
            0 <= i < samples@.len() ==> sample_accepted(*tokenizer, #[trigger] samples@[i]),
        batch matches Some(batch) ==> holds_samples(
            batch,
            *tokenizer,
            samples@,
            max_context_len as int,
        ) && batch.cols <= max_context_len,
{
    let mut i: usize = 0;
    while i < samples.len()
        invariant
            i <= samples.len(),
            forall|j: int| 0 <= j < i ==> sample_accepted(*tokenizer, #[trigger] samples@[j]),
        decreases samples.len() - i,
    {
        let sample = &samples[i];
        if !tokenizer.can_encode(sample.prompt.as_str()) || !tokenizer.can_encode(
            sample.response.as_str(),
        ) {
            assert(!sample_accepted(*tokenizer, samples@[i as int]));
            return None;
        }
        i += 1;
    }
    Some(assemble_group(tokenizer, samples, max_context_len))
}

/// A sample that is cut keeps its end: the mask is cut with the tokens and still
/// marks those of the response.
pub proof fn law_cut_mask_marks_the_response(prompt: Seq<TokenID>, response: Seq<TokenID>, max: int)
    requires
        max >= 0,
    ensures
        ({
            let ids = last_tokens(prompt + response, max);
            let mask = last_tokens(
                response_mask(prompt.len() as int, response.len() as int),
                max,
            );
            let shown = if response.len() < ids.len() {
                response.len() as int
            } else {
                ids.len() as int
            };
            &&& mask.len() == ids.len()
            &&& ids.len() <= max
            &&& ids.skip(ids.len() - shown) == response.skip(response.len() - shown)
            &&& forall|i: int|
                0 <= i < ids.len() ==> #[trigger] mask[i] == (if i < ids.len() - shown {
                    0int
                } else {
                    1
                })
        }),
{
}

// ---------------------------------------------------------------------------
// Laws
// ---------------------------------------------------------------------------

/// Whatever the right answer is, a response whose last number is written in decimal
/// earns the reward if and only if that number is the right one, and one whose last
/// number has a minus sign if and only if the negative number is. The numbers before
/// the last do not matter, nor does anything else in the response.
pub proof fn law_last_number_of_a_response_decides(
    response: Seq<char>,
    numbers: Seq<Seq<char>>,
    answer: nat,
    truth: int,
)
    requires
        regex_matches(NUMBER_PATTERN@, response) == Some(numbers),
        numbers.len() > 0,
    ensures
        numbers.last() == decimal(answer) ==> (rewarded(truth, response) <==> answer == truth),
        numbers.last() == seq!['-'] + decimal(answer) ==> (rewarded(truth, response) <==> -(
        answer as int) == truth),
        numbers.last() == seq!['0'] + decimal(answer) ==> (rewarded(truth, response) <==> answer
            == truth),
        signed_value(numbers.last()) is None ==> !rewarded(truth, response),
{
    law_decimal_digits_stand_for_the_number(answer);
    law_signs_are_read(decimal(answer));
    let padded = seq!['0'] + decimal(answer);
    assert forall|i: int| 0 <= i < padded.len() implies '0' <= #[trigger] padded[i] <= '9' by {
        if i > 0 {
            assert(padded[i] == decimal(answer)[i - 1]);
        }
    }
    law_signs_are_read(padded);
}

/// A response in which no number is found earns no reward, whatever the right answer
/// is.
pub proof fn law_response_without_numbers_earns_nothing(response: Seq<char>, truth: int)
    requires
        match regex_matches(NUMBER_PATTERN@, response) {
            Some(numbers) => numbers.len() == 0,
            None => true,
        },
    ensures
        !rewarded(truth, response),
{
}

/// Two responses with the same last number earn the same reward, and a response earns
/// it for one right answer at most.
pub proof fn law_reward_is_for_one_answer(
    a: Seq<char>,
    b: Seq<char>,
    first: Seq<Seq<char>>,
    second: Seq<Seq<char>>,
    truth: int,
    other: int,
)
    requires
        regex_matches(NUMBER_PATTERN@, a) == Some(first),
        regex_matches(NUMBER_PATTERN@, b) == Some(second),
        first.len() > 0,
        second.len() > 0,
        first.last() == second.last(),
    ensures
        rewarded(truth, a) == rewarded(truth, b),
        rewarded(truth, a) && rewarded(other, a) ==> truth == other,
        signed_value(first.last()) matches Some(n) ==> rewarded(n, a),
{
}

/// Rewards are counted one by one: those of two lots are as many as those of both, and
/// one counts where it was earned.
pub proof fn law_rewards_add_up(a: Seq<bool>, b: Seq<bool>)
    ensures
        earned(a + b) == earned(a) + earned(b),
        earned(seq![true]) == 1,
        earned(seq![false]) == 0,
        earned(Seq::empty()) == 0,
    decreases b.len(),
{
    assert(seq![true].drop_last() == Seq::<bool>::empty());
    assert(seq![false].drop_last() == Seq::<bool>::empty());
    assert(earned(Seq::<bool>::empty()) == 0);
    if b.len() == 0 {
        assert(a + b == a);
    } else {
        law_rewards_add_up(a, b.drop_last());
        assert((a + b).drop_last() == a + b.drop_last());
        assert((a + b).last() == b.last());
    }
}

/// The last tokens of a row are its end, as many as there may be.
pub proof fn law_last_tokens_are_the_end(row: Seq<TokenID>, max: nat)
    ensures
        last_tokens(row, max as int).len() == if row.len() < max {
            row.len()
        } else {
            max
        },
        forall|i: int|
            0 <= i < last_tokens(row, max as int).len() ==> #[trigger] last_tokens(
                row,
                max as int,
            )[i] == row[row.len() - last_tokens(row, max as int).len() + i],
{
}

/// No row is longer than the longest, and one row is as long.
pub proof fn law_longest_row_is_among_them(rows: Seq<Seq<TokenID>>)
    requires
        rows.len() > 0,
    ensures
        forall|i: int| 0 <= i < rows.len() ==> (#[trigger] rows[i]).len() <= longest(rows),
        exists|i: int| 0 <= i < rows.len() && (#[trigger] rows[i]).len() == longest(rows),
    decreases rows.len(),
{
    assert forall|i: int| 0 <= i < rows.len() implies (#[trigger] rows[i]).len() <= longest(
        rows,
    ) by {
        lemma_longest(rows, i);
    }
    let last = rows.len() - 1;
    if rows[last].len() != longest(rows) {
        let shorter = rows.drop_last();
        assert(rows.last() == rows[last]);
        if shorter.len() == 0 {
            assert(longest(shorter) == 0);
        }
        law_longest_row_is_among_them(shorter);
        let i = choose|i: int|
            0 <= i < shorter.len() && (#[trigger] shorter[i]).len() == longest(shorter);
        assert(rows[i].len() == longest(rows));
    }
}

/// Every row of a batch stands in it at its place, with its mask, and zeros behind
/// them.
pub proof fn law_batch_holds_every_row(
    batch: CodeBotGRPOBatch,
    prompts: Seq<Seq<char>>,
    rows: Seq<Seq<TokenID>>,
    masks: Seq<Seq<TokenID>>,
    r: int,
    c: int,
)
    requires
        holds_rows(batch, prompts, rows, masks),
        rows.len() == masks.len(),
        forall|i: int| 0 <= i < rows.len() ==> (#[trigger] rows[i]).len() == masks[i].len(),
        0 <= r < rows.len(),
        0 <= c < batch.cols,
    ensures
        0 <= r * batch.cols + c < batch.ids@.len(),
        batch.masks@.len() == batch.ids@.len(),
        batch.ids@[r * batch.cols + c] == if c < rows[r].len() {
            rows[r][c] as int
        } else {
            0
        },
        batch.masks@[r * batch.cols + c] == if c < rows[r].len() {
            masks[r][c] as int
        } else {
            0
        },
{
    let len = longest(rows);
    let all = padded_rows(rows, len as int);
    let all_masks = padded_rows(masks, len as int);
    assert forall|i: int| 0 <= i < all.len() implies (#[trigger] all[i]).len() == len by {
        lemma_longest(rows, i);
    }
    assert forall|i: int| 0 <= i < all_masks.len() implies (#[trigger] all_masks[i]).len()
        == len by {
        lemma_longest(rows, i);
        assert(rows[i].len() == masks[i].len());
    }
    assert(rows[r].len() == masks[r].len());
    lemma_longest(rows, r);
    law_rows_stand_one_after_the_other(all, len, r, c);
    law_rows_stand_one_after_the_other(all_masks, len, r, c);
}

/// Every sample of a batch has a row: the tokens of its prompt and then those of its
/// response, whatever it earned, without those at the start that are too many, and
/// zeros behind them. Its mask is one for each token of the response in the row and zero
/// everywhere else. The samples keep their order, with their prompts.
pub proof fn law_batch_holds_every_sample(
    batch: CodeBotGRPOBatch,
    tokenizer: BPETokenizer,
    samples: Seq<GrpoSample>,
    max: nat,
    r: int,
    c: int,
)
    requires
        holds_samples(batch, tokenizer, samples, max as int),
        0 <= r < samples.len(),
        0 <= c < batch.cols,
    ensures
        ({
            let prompt = tokenizer.ids_of(samples[r].prompt@);
            let response = tokenizer.ids_of(samples[r].response@);
            let all = prompt + response;
            let cut: int = if all.len() > max {
                all.len() - max
            } else {
                0
            };
            let at = r * batch.cols + c;
            &&& batch.rows == samples.len()
            &&& all.len() - cut <= batch.cols
            &&& 0 <= at < batch.ids@.len()
            &&& batch.masks@.len() == batch.ids@.len()
            &&& batch.ids@[at] == if cut + c < all.len() {
                all[cut + c] as int
            } else {
                0
            }
            &&& batch.masks@[at] == if prompt.len() <= cut + c < prompt.len() + response.len() {
                1int
            } else {
                0
            }
            &&& batch.prompts@.len() == samples.len()
            &&& batch.prompts@[r]@ == samples[r].prompt@
            &&& batch.gts@.len() == samples.len()
            &&& batch.gts@[r] == 0
        }),
{
    let m = max as int;
    let rows = sample_rows(tokenizer, samples, m);
    let masks = sample_masks(tokenizer, samples, m);
    assert forall|i: int| 0 <= i < rows.len() implies (#[trigger] rows[i]).len()
        == masks[i].len() by {
        assert(rows[i] == sample_ids(tokenizer, samples[i], m));
        assert(masks[i] == sample_mask(tokenizer, samples[i], m));
    }
    let prompts = samples.map_values(|sample: GrpoSample| sample.prompt@);
    law_batch_holds_every_row(batch, prompts, rows, masks, r, c);
    lemma_longest(rows, r);
    assert(rows[r] == sample_ids(tokenizer, samples[r], m));
    assert(masks[r] == sample_mask(tokenizer, samples[r], m));
    assert(strings(batch.prompts@).len() == samples.len());
    assert(strings(batch.prompts@)[r] == batch.prompts@[r]@);
}

/// A sample that is not cut stands whole at the start of its row: the tokens of the
/// prompt, those of the response, and zeros. Its mask is one at exactly as many places
/// as the response has tokens, behind the prompt.
pub proof fn law_uncut_sample_stands_whole(
    batch: CodeBotGRPOBatch,
    tokenizer: BPETokenizer,
    samples: Seq<GrpoSample>,
    max: nat,
    r: int,
    c: int,
)
    requires
        holds_samples(batch, tokenizer, samples, max as int),
        0 <= r < samples.len(),
        0 <= c < batch.cols,
        tokenizer.ids_of(samples[r].prompt@).len() + tokenizer.ids_of(samples[r].response@).len()
            <= max,
    ensures
        ({
            let prompt = tokenizer.ids_of(samples[r].prompt@);
            let response = tokenizer.ids_of(samples[r].response@);
            let id = batch.ids@[r * batch.cols + c];
            let mask = batch.masks@[r * batch.cols + c];
            &&& prompt.len() + response.len() <= batch.cols
            &&& c < prompt.len() ==> id == prompt[c] as int && mask == 0
            &&& prompt.len() <= c < prompt.len() + response.len() ==> id == response[c
                - prompt.len()] as int && mask == 1
            &&& prompt.len() + response.len() <= c ==> id == 0 && mask == 0
        }),
{
    law_batch_holds_every_sample(batch, tokenizer, samples, max, r, c);
}

/// A batch is as wide as what is kept of its longest sample, and no wider.
pub proof fn law_batch_is_as_wide_as_its_longest_sample(
    batch: CodeBotGRPOBatch,
    tokenizer: BPETokenizer,
    samples: Seq<GrpoSample>,
    max: nat,
)
    requires
        holds_samples(batch, tokenizer, samples, max as int),
        samples.len() > 0,
    ensures
        batch.cols <= max,
        batch.cols < max ==> exists|r: int|
            0 <= r < samples.len() && tokenizer.ids_of((#[trigger] samples[r]).prompt@).len()
                + tokenizer.ids_of(samples[r].response@).len() == batch.cols,
        forall|r: int|
            0 <= r < samples.len() ==> tokenizer.ids_of((#[trigger] samples[r]).prompt@).len()
                + tokenizer.ids_of(samples[r].response@).len() <= batch.cols || batch.cols == max,
{
    let m = max as int;
    let rows = sample_rows(tokenizer, samples, m);
    assert forall|i: int| 0 <= i < rows.len() implies (#[trigger] rows[i]).len() <= max by {
        assert(rows[i] == sample_ids(tokenizer, samples[i], m));
    }
    lemma_longest_bound(rows, max);
    law_longest_row_is_among_them(rows);
    let r = choose|r: int| 0 <= r < rows.len() && (#[trigger] rows[r]).len() == longest(rows);
    assert(rows[r] == sample_ids(tokenizer, samples[r], m));
    assert forall|i: int| 0 <= i < samples.len() implies tokenizer.ids_of(
        (#[trigger] samples[i]).prompt@,
    ).len() + tokenizer.ids_of(samples[i].response@).len() <= batch.cols || batch.cols == max by {
        assert(rows[i] == sample_ids(tokenizer, samples[i], m));
        assert(rows[i].len() <= longest(rows));
    }
    if batch.cols < max {
        assert(tokenizer.ids_of(samples[r].prompt@).len() + tokenizer.ids_of(
            samples[r].response@,
        ).len() == batch.cols);
    }
}

/// The problems ask for the sum of every two numbers from one to nine, in order: each
/// has the two numbers in its prompt, their sum as the right answer, the tokens of the
/// prompt and of the sum as its row, and a mask that is one for the tokens of the sum.
pub proof fn law_problems_are_all_sums(
    dataset: CodeBotGRPODataset,
    tokenizer: BPETokenizer,
    i: nat,
    j: nat,
)
    requires
        dataset.holds_problems(tokenizer),
        1 <= i <= 9,
        1 <= j <= 9,
    ensures
        ({
            let k = 9 * (i - 1) + (j - 1);
            let text = "### Instruction:\n"@ + (decimal(i) + "+"@ + decimal(j) + "="@)
                + "\n\n### Response:\n"@;
            let prompt = tokenizer.ids_of(text);
            let answer = tokenizer.ids_of(decimal(i + j));
            let ids = dataset.id_rows()[k];
            let mask = dataset.mask_rows()[k];
            &&& dataset.id_rows().len() == 81
            &&& 0 <= k < 81
            &&& dataset.prompts()[k] == text
            &&& dataset.gts()[k] == i + j
            &&& prompt.len() + answer.len() <= ids.len()
            &&& mask.len() == ids.len()
            &&& forall|c: int| 0 <= c < prompt.len() ==> #[trigger] ids[c] == prompt[c]
            &&& forall|c: int|
                prompt.len() <= c < prompt.len() + answer.len() ==> #[trigger] ids[c] == answer[c
                    - prompt.len()]
            &&& forall|c: int|
                prompt.len() + answer.len() <= c < ids.len() ==> #[trigger] ids[c] == 0
            &&& forall|c: int|
                0 <= c < ids.len() ==> #[trigger] mask[c] == if prompt.len() <= c < prompt.len()
                    + answer.len() {
                    1int
                } else {
                    0
                }
        }),
{
    let k = 9 * (i - 1) + (j - 1);
    assert(first_term(k) == i && second_term(k) == j);
    let rows = problem_rows(tokenizer, PROBLEMS as int);
    lemma_longest(rows, k);
    assert(rows[k] == problem_ids(tokenizer, k));
    let len = longest(rows) as int;
    assert(dataset.id_rows()[k] == padded(problem_ids(tokenizer, k), len));
    assert(dataset.mask_rows()[k] == padded(problem_mask(tokenizer, k), len));
    law_mask_marks_the_answer(tokenizer, k, len);
    assert(dataset.prompts()[k] == problem_prompt(k));
    assert(dataset.gts()[k] == problem_sum(k));
}

/// Each sample of a group answers the prompt of the group: the response is what the
/// model said behind the prompt, or all it said where it began in another way, and it
/// is judged by the right answer to that prompt.
pub proof fn law_samples_answer_their_prompt(
    samples: Seq<GrpoSample>,
    prompts: Seq<String>,
    gts: Seq<i32>,
    texts: Seq<String>,
    group_size: int,
    k: int,
    i: int,
    said: Seq<char>,
)
    requires
        judged(samples, prompts, gts, texts, group_size),
        texts.len() == prompts.len() * group_size,
        0 <= k < prompts.len(),
        0 <= i < group_size,
    ensures
        ({
            let r = k * group_size + i;
            &&& 0 <= r < samples.len()
            &&& samples.len() == texts.len()
            &&& samples[r].prompt@ == prompts[k]@
            &&& texts[r]@ == prompts[k]@ + said ==> samples[r].response@ == said
            &&& !prompts[k]@.is_prefix_of(texts[r]@) ==> samples[r].response@ == texts[r]@
            &&& samples[r].reward == rewarded(gts[k] as int, samples[r].response@)
        }),
{
    let r = k * group_size + i;
    assert(k * group_size + group_size <= prompts.len() * group_size && 0 <= k * group_size)
        by (nonlinear_arith)
        requires
            0 <= k < prompts.len(),
            0 < group_size,
    ;
    law_every_prompt_gets_a_group(prompts.len() as int, group_size, k, r);
    assert(r / group_size == k);
    assert(samples[r].prompt@ == prompts[k]@);
    law_stripping_leaves_the_rest(prompts[k]@, said);
    if !prompts[k]@.is_prefix_of(texts[r]@) {
        law_other_start_is_kept(texts[r]@, prompts[k]@);
    }
}

/// Every sample of a group is told how many rewards the samples of that group earned.
pub proof fn law_group_shares_its_count(
    counts: Seq<usize>,
    samples: Seq<GrpoSample>,
    group_size: int,
    groups: int,
    k: int,
    i: int,
)
    requires
        counted_in_groups(counts, samples, group_size),
        samples.len() == groups * group_size,
        0 <= k < groups,
        0 <= i < group_size,
    ensures
        counts.len() == samples.len(),
        0 <= k * group_size + i < counts.len(),
        counts[k * group_size + i] == earned(
            Seq::new(group_size as nat, |j: int| samples[k * group_size + j].reward),
        ),
        counts[k * group_size + i] == counts[k * group_size],
{
    let r = k * group_size + i;
    let start = k * group_size;
    assert(start + group_size <= groups * group_size && 0 <= start) by (nonlinear_arith)
        requires
            start == k * group_size,
            0 <= k < groups,
            0 < group_size,
    ;
    law_every_prompt_gets_a_group(groups, group_size, k, r);
    law_every_prompt_gets_a_group(groups, group_size, k, start);
    assert(r / group_size == k);
    assert(start / group_size == k);
    let group = group_of(samples, group_size, r);
    assert(rewards_of(group) == Seq::new(
        group_size as nat,
        |j: int| samples[k * group_size + j].reward,
    ));
    assert(counts[r] == earned(rewards_of(group)));
    assert(counts[start] == earned(rewards_of(group_of(samples, group_size, start))));
}

/// Problems form a batch where there are any and all tokens and masks have one length,
/// and only there.
pub proof fn law_even_problems_form_a_batch(items: Seq<CodeBotGRPOItem>, len: nat)
    requires
        items.len() > 0,
        items[0].ids@.len() == len,
    ensures
        grpo_batchable(items) <==> forall|i: int|
            0 <= i < items.len() ==> (#[trigger] items[i]).ids@.len() == len
                && items[i].mask@.len() == len,
        !grpo_batchable(Seq::empty()),
{
    if grpo_batchable(items) {
        assert forall|i: int| 0 <= i < items.len() implies (#[trigger] items[i]).ids@.len() == len
            && items[i].mask@.len() == len by {
            assert(item_ids(items)[i].len() == len);
            assert(item_masks(items)[i].len() == len);
        }
    }
}

/// A mask is zero for each token of the prompt and one for each token of the response.
pub proof fn law_mask_is_one_for_the_response(prompt: nat, response: nat, i: int)
    requires
        0 <= i < prompt + response,
    ensures
        response_mask(prompt as int, response as int).len() == prompt + response,
        response_mask(prompt as int, response as int)[i] == if i < prompt {
            0int
        } else {
            1
        },
{
}

/// A row that is filled up keeps its tokens and has zeros behind them.
pub proof fn law_filled_row_keeps_its_tokens(rows: Seq<Seq<TokenID>>, len: int, r: int, c: int)
    requires
        0 <= r < rows.len(),
        rows[r].len() <= len,
        0 <= c < len,
    ensures
        padded_rows(rows, len).len() == rows.len(),
        padded_rows(rows, len)[r].len() == len,
        padded_rows(rows, len)[r][c] == if c < rows[r].len() {
            rows[r][c]
        } else {
            0
        },
{
}

/// The problems can be encoded where the prompts and the answers of all sums can.
pub proof fn law_problems_can_be_encoded(tokenizer: BPETokenizer)
    ensures
        problems_accepted(tokenizer) <==> forall|i: nat, j: nat|
            1 <= i <= 9 && 1 <= j <= 9 ==> {
                &&& tokenizer.accepts(
                    "### Instruction:\n"@ + (#[trigger] decimal(i) + "+"@ + #[trigger] decimal(j)
                        + "="@) + "\n\n### Response:\n"@,
                )
                &&& tokenizer.accepts(decimal((i + j) as nat))
            },
{
    if problems_accepted(tokenizer) {
        assert forall|i: nat, j: nat| 1 <= i <= 9 && 1 <= j <= 9 implies {
            &&& tokenizer.accepts(
                "### Instruction:\n"@ + (#[trigger] decimal(i) + "+"@ + #[trigger] decimal(j)
                    + "="@) + "\n\n### Response:\n"@,
            )
            &&& tokenizer.accepts(decimal((i + j) as nat))
        } by {
            let k = 9 * (i - 1) + (j - 1);
            assert(first_term(k) == i && second_term(k) == j);
            assert(problem_accepted(tokenizer, k));
        }
    } else {
        let k = choose|k: int| 0 <= k < PROBLEMS && !#[trigger] problem_accepted(tokenizer, k);
        let i = first_term(k);
        let j = second_term(k);
        assert(1 <= i <= 9 && 1 <= j <= 9);
        assert(decimal(i) == decimal(i) && decimal(j) == decimal(j));
    }
}

/// A sample can be encoded where both its texts can.
pub proof fn law_sample_can_be_encoded(tokenizer: BPETokenizer, sample: GrpoSample)
    ensures
        tokenizer.accepts(sample.prompt@) && tokenizer.accepts(sample.response@)
            <==> sample_accepted(tokenizer, sample),
{
}

/// What is calculated for a response is the reward of its last number: where that is
/// written in decimal, it is earned if and only if it is the right one, whatever that
/// is.
pub proof fn law_reward_is_calculated_from_the_last_number(
    ground_truth: i32,
    response: &str,
    reward: bool,
    numbers: Seq<Seq<char>>,
    answer: nat,
)
    requires
        call_ensures(calculate_reward, (ground_truth, response), reward),
        regex_matches(NUMBER_PATTERN@, response@) == Some(numbers),
        numbers.len() > 0,
        numbers.last() == decimal(answer),
    ensures
        reward <==> answer == ground_truth,
{
    law_last_number_of_a_response_decides(response@, numbers, answer, ground_truth as int);
}

/// A sample is judged by what the model said behind the prompt, and keeps it and the
/// prompt.
pub proof fn law_sample_is_judged_by_what_was_said(
    prompt: &str,
    ground_truth: i32,
    full_text: &str,
    said: Seq<char>,
    sample: GrpoSample,
)
    requires
        call_ensures(judge_sample, (prompt, ground_truth, full_text), sample),
    ensures
        sample.prompt@ == prompt@,
        full_text@ == prompt@ + said ==> sample.response@ == said,
        !prompt@.is_prefix_of(full_text@) ==> sample.response@ == full_text@,
        sample.reward == rewarded(ground_truth as int, sample.response@),
{
    law_stripping_leaves_the_rest(prompt@, said);
    if !prompt@.is_prefix_of(full_text@) {
        law_other_start_is_kept(full_text@, prompt@);
    }
}

} // verus!

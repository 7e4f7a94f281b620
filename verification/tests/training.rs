use codebot::dataset::{convert_text, CodeBotBatcher, CodeBotDataset, CodeBotItem};
use codebot::generation::{chat_response, Generation};
use codebot::grpo::{
    assemble_group, batch_rows, calculate_reward, count_rewards, group_rewards, join_response,
    judge_group, judge_groups, judge_sample, keep_last, pad_rows, reward_for, rewards_in_groups,
    try_assemble_group, CodeBotGRPOBatcher, CodeBotGRPODataset, GrpoSample,
};
use codebot::model::{attention_width, head_dim, hidden_dim, GPTConfig};
use codebot::ordered::TokenID;
use codebot::schedule::{
    div_ceil, grpo_step, max_items, setting, sft_epochs, GrpoStep, GROUP_SIZE,
};
use codebot::sft::{format_prompt, sft_example, CodeBotSFTDataset, CodeBotSFTItem, IGNORE_TOKEN};
use codebot::tokenizer::{BPETokenizer, END_TOKEN};
use indexmap::IndexMap;

fn plain_tokenizer() -> BPETokenizer {
    BPETokenizer::new(&IndexMap::new(), END_TOKEN)
}

fn bytes_of(text: &str) -> Vec<TokenID> {
    text.bytes().map(|b| b as TokenID).collect()
}

fn chat(instruction: &str, response: &str) -> CodeBotSFTItem {
    CodeBotSFTItem {
        instruction: instruction.to_string(),
        response: response.to_string(),
    }
}

fn sample(prompt: &str, response: &str) -> GrpoSample {
    GrpoSample {
        prompt: prompt.to_string(),
        response: response.to_string(),
        reward: false,
    }
}

#[test]
fn examples_overlap_and_labels_are_one_ahead() {
    let dataset = CodeBotDataset::from_tokens(2, vec![1, 2, 3, 4, 5]);
    assert!(dataset.is_long_enough());
    assert_eq!(dataset.len(), 2);
    let first = dataset.get(0).unwrap();
    assert_eq!(first.tokens, vec![1, 2]);
    assert_eq!(first.labels, vec![2, 3]);
    let second = dataset.get(1).unwrap();
    assert_eq!(second.tokens, vec![2, 3]);
    assert_eq!(second.labels, vec![3, 4]);
    assert!(dataset.get(2).is_none());
}

#[test]
fn a_sequence_of_one_context_has_no_examples() {
    let dataset = CodeBotDataset::from_tokens(2, vec![1, 2, 3]);
    assert_eq!(dataset.len(), 0);
    assert!(dataset.get(0).is_none());
    assert!(!CodeBotDataset::from_tokens(2, vec![1, 2]).is_long_enough());
}

#[test]
fn converted_text_is_a_dataset() {
    let bytes = convert_text(&plain_tokenizer(), "abc<|endoftext|>").unwrap();
    let dataset = CodeBotDataset::new(1, &bytes).unwrap();
    assert_eq!(dataset.len(), 2);
    let item = dataset.get(1).unwrap();
    assert_eq!(item.tokens, vec![98]);
    assert_eq!(item.labels, vec![99]);
    assert!(CodeBotDataset::new(1, &[0x01]).is_none());
}

#[test]
fn examples_are_batched_row_by_row() {
    let items = vec![
        CodeBotItem { tokens: vec![1, 2], labels: vec![2, 3] },
        CodeBotItem { tokens: vec![4, 65535], labels: vec![5, 6] },
    ];
    let batch = CodeBotBatcher.batch(items);
    assert_eq!(batch.tokens, vec![1, 2, 4, 65535]);
    assert_eq!(batch.labels, vec![2, 3, 5, 6]);
    assert_eq!((batch.rows, batch.cols), (2, 2));
}

#[test]
fn uneven_examples_form_no_batch() {
    let even = CodeBotItem { tokens: vec![1, 2], labels: vec![2, 3] };
    let short = CodeBotItem { tokens: vec![1], labels: vec![2] };
    let odd = CodeBotItem { tokens: vec![1, 2], labels: vec![2] };
    assert!(CodeBotBatcher.can_batch(&vec![even.clone(), even.clone()]));
    assert!(!CodeBotBatcher.can_batch(&vec![even.clone(), short]));
    assert!(!CodeBotBatcher.can_batch(&vec![even, odd]));
    assert!(!CodeBotBatcher.can_batch(&vec![]));
}

#[test]
fn prompts_have_two_headings() {
    assert_eq!(
        format_prompt("1+1="),
        "### Instruction:\n1+1=\n\n### Response:\n"
    );
}

#[test]
fn only_the_response_is_learned() {
    let item = sft_example(vec![1, 2, 3], vec![4, 5], 6);
    assert_eq!(item.tokens, vec![1, 2, 3, 4, 0, 0]);
    assert_eq!(
        item.labels,
        vec![IGNORE_TOKEN, IGNORE_TOKEN, 4, 5, IGNORE_TOKEN, IGNORE_TOKEN]
    );
}

#[test]
fn long_chats_are_cut() {
    let item = sft_example(vec![1, 2, 3], vec![4, 5], 3);
    assert_eq!(item.tokens, vec![1, 2, 3]);
    assert_eq!(item.labels, vec![IGNORE_TOKEN, IGNORE_TOKEN, 4]);
    let exact = sft_example(vec![1, 2, 3], vec![4, 5], 4);
    assert_eq!(exact.tokens, vec![1, 2, 3, 4]);
    assert_eq!(exact.labels, vec![IGNORE_TOKEN, IGNORE_TOKEN, 4, 5]);
}

#[test]
fn chats_become_examples_of_one_length() {
    let chats = vec![chat("a", "b"), chat("long question", "long answer")];
    let dataset = CodeBotSFTDataset::try_new(40, &chats, &plain_tokenizer()).unwrap();
    assert_eq!(dataset.len(), 2);
    let item = dataset.get(0).unwrap();
    let mut tokens = bytes_of("### Instruction:\na\n\n### Response:\nb");
    assert_eq!(tokens.len(), 35);
    tokens.resize(40, 0);
    assert_eq!(item.tokens, tokens);
    let mut labels = vec![IGNORE_TOKEN; 33];
    labels.extend([98, 256]);
    labels.resize(40, IGNORE_TOKEN);
    assert_eq!(item.labels, labels);
    let cut = dataset.get(1).unwrap();
    assert_eq!((cut.tokens.len(), cut.labels.len()), (40, 40));
    assert!(dataset.get(2).is_none());
    let again = CodeBotSFTDataset::new(40, &chats, &plain_tokenizer());
    assert_eq!(again.get(1).unwrap().tokens, cut.tokens);
}

#[test]
fn the_last_number_counts() {
    assert!(calculate_reward(7, "3+4=7"));
    assert!(calculate_reward(7, "the answer is 7."));
    assert!(!calculate_reward(7, "7 or 8"));
    assert!(calculate_reward(-3, "-3"));
    assert!(!calculate_reward(3, "-3"));
    assert!(!calculate_reward(0, "nothing"));
    assert!(!calculate_reward(0, "99999999999"));
    assert!(!calculate_reward(3, "٣"));
}

#[test]
fn numbers_that_were_found_are_judged() {
    assert!(reward_for(&vec!["1", "12"], 12));
    assert!(!reward_for(&vec!["12", "1"], 12));
    assert!(!reward_for(&vec![], 12));
    assert!(!reward_for(&vec!["x"], 12));
    assert_eq!(count_rewards(&vec![true, false, true]), 2);
    assert_eq!(count_rewards(&vec![]), 0);
}

#[test]
fn there_are_eighty_one_problems() {
    let dataset = CodeBotGRPODataset::try_new(&plain_tokenizer()).unwrap();
    assert_eq!(dataset.len(), 81);
    let mut seen = Vec::new();
    for i in 0..81 {
        let item = dataset.get(i).unwrap();
        assert_eq!((item.ids.len(), item.mask.len()), (39, 39));
        seen.push((item.prompt, item.gt));
    }
    for i in 1..10 {
        for j in 1..10 {
            let expected = (format_prompt(&format!("{}+{}=", i, j)), i + j);
            assert_eq!(seen[9 * (i as usize - 1) + (j as usize - 1)], expected);
        }
    }
    assert!(dataset.get(81).is_none());
}

#[test]
fn masks_mark_the_answer() {
    let dataset = CodeBotGRPODataset::new(&plain_tokenizer());
    let first = dataset.get(0).unwrap();
    assert_eq!(first.gt, 2);
    let mut ids = bytes_of(&first.prompt);
    assert_eq!(ids.len(), 37);
    ids.extend([50, 0]);
    assert_eq!(first.ids, ids);
    let mut mask = vec![0; 37];
    mask.extend([1, 0]);
    assert_eq!(first.mask, mask);
    let last = dataset.get(80).unwrap();
    assert_eq!(last.gt, 18);
    assert_eq!(last.ids[37..], [49, 56]);
    assert_eq!(last.mask[37..], [1, 1]);
}

#[test]
fn problems_are_batched_row_by_row() {
    let dataset = CodeBotGRPODataset::new(&plain_tokenizer());
    let items = vec![dataset.get(0).unwrap(), dataset.get(80).unwrap()];
    assert!(CodeBotGRPOBatcher.can_batch(&items));
    let batch = CodeBotGRPOBatcher.batch(items.clone());
    assert_eq!((batch.rows, batch.cols), (2, 39));
    assert_eq!(batch.gts, vec![2, 18]);
    assert_eq!(batch.prompts, vec![items[0].prompt.clone(), items[1].prompt.clone()]);
    assert_eq!(batch.ids.len(), 78);
    assert_eq!(batch.ids[37], 50);
    assert_eq!(batch.masks[36..40], [0, 1, 0, 0]);

    let mut uneven = items;
    uneven[1].mask.pop();
    assert!(!CodeBotGRPOBatcher.can_batch(&uneven));
    assert!(!CodeBotGRPOBatcher.can_batch(&vec![]));
}

#[test]
fn samples_are_judged_by_what_follows_the_prompt() {
    let right = judge_sample("1+1=", 2, "1+1=2");
    assert_eq!(right.response, "2");
    assert_eq!(right.prompt, "1+1=");
    assert!(right.reward);
    let wrong = judge_sample("1+1=", 1, "1+1=");
    assert_eq!(wrong.response, "");
    assert!(!wrong.reward);
    let other = judge_sample("1+1=", 2, "so 2");
    assert_eq!(other.response, "so 2");
    assert!(other.reward);
}

#[test]
fn samples_are_cut_and_filled_up() {
    let samples = vec![sample("ab", "c"), sample("abc", "defg"), sample("a", "")];
    let batch = assemble_group(&plain_tokenizer(), &samples, 5);
    assert_eq!((batch.rows, batch.cols), (3, 5));
    assert_eq!(
        batch.ids,
        vec![97, 98, 99, 0, 0, 99, 100, 101, 102, 103, 97, 0, 0, 0, 0]
    );
    assert_eq!(batch.masks, vec![0, 0, 1, 0, 0, 0, 1, 1, 1, 1, 0, 0, 0, 0, 0]);
    assert_eq!(batch.gts, vec![0, 0, 0]);
    assert_eq!(batch.prompts, vec!["ab", "abc", "a"]);
    let tried = try_assemble_group(&plain_tokenizer(), &samples, 5).unwrap();
    assert_eq!(tried.ids, batch.ids);
    let none = assemble_group(&plain_tokenizer(), &vec![], 5);
    assert_eq!((none.rows, none.cols), (0, 0));
}

#[test]
fn the_last_tokens_are_kept() {
    assert_eq!(keep_last(&[1, 2, 3], 2), vec![2, 3]);
    assert_eq!(keep_last(&[1, 2, 3], 3), vec![1, 2, 3]);
    assert_eq!(keep_last(&[1], 3), vec![1]);
    assert_eq!(keep_last(&[1], 0), Vec::<TokenID>::new());
}

#[test]
fn generation_goes_on_to_the_end_token() {
    let mut generation = Generation::from_tokens(vec![1, 2, 3], 9, 5, 2);
    assert_eq!(generation.window(), Some(vec![2, 3]));
    generation.accept(5);
    assert_eq!(generation.window(), Some(vec![3, 5]));
    generation.accept(9);
    assert_eq!(generation.window(), None);
    generation.accept(6);
    assert_eq!(*generation.tokens(), vec![1, 2, 3, 5]);
}

#[test]
fn generation_stops_when_enough_was_said() {
    let mut generation = Generation::from_tokens(vec![], 9, 2, 4);
    assert_eq!(generation.window(), Some(vec![]));
    generation.accept(1);
    generation.accept(2);
    generation.accept(3);
    assert_eq!(generation.window(), None);
    assert_eq!(*generation.tokens(), vec![1, 2]);
    assert_eq!(Generation::from_tokens(vec![1], 9, 0, 4).window(), None);
}

#[test]
fn generation_starts_with_the_prompt() {
    let tokenizer = plain_tokenizer();
    let mut generation = Generation::try_start(&tokenizer, "hi", 10, 256).unwrap();
    assert_eq!(generation.window(), Some(vec![104, 105]));
    generation.accept(33);
    generation.accept(tokenizer.end_token_id());
    assert_eq!(generation.text(&tokenizer), Some("hi!".to_string()));
    let mut strange = Generation::start(&tokenizer, "hi", 10, 256);
    strange.accept(999);
    assert_eq!(strange.text(&tokenizer), None);
}

#[test]
fn a_chat_returns_what_follows_the_heading() {
    let text = format!("{}4", format_prompt("2+2="));
    assert_eq!(chat_response(&text), "\n4");
    assert_eq!(chat_response("no heading"), "no heading");
}

#[test]
fn settings_have_defaults() {
    assert_eq!(setting(None, 20000), 20000);
    assert_eq!(setting(Some("100"), 20000), 100);
    assert_eq!(setting(Some("many"), 20000), 20000);
    assert_eq!(setting(Some("0"), 1), 0);
}

#[test]
fn no_more_items_are_used_than_there_are() {
    assert_eq!(max_items(None, 32, 100, 5000), 3200);
    assert_eq!(max_items(None, 32, 100, 1000), 1000);
    assert_eq!(max_items(None, 32, usize::MAX, 1000), 1000);
    assert_eq!(max_items(Some("10"), 32, 100, 1000), 10);
    assert_eq!(max_items(Some("2000"), 32, 100, 1000), 1000);
    assert_eq!(max_items(Some("all"), 32, 1, 1000), 1000);
}

#[test]
fn epochs_are_just_enough() {
    assert_eq!(div_ceil(7, 2), 4);
    assert_eq!(div_ceil(8, 2), 4);
    assert_eq!(div_ceil(0, 2), 0);
    assert_eq!(sft_epochs(100), 375);
    assert_eq!(sft_epochs(1), 1500);
    assert_eq!(sft_epochs(1_000_000), 1);
    let batches = div_ceil(1234, 32);
    assert!(sft_epochs(1234) * batches >= 1500);
    assert!((sft_epochs(1234) - 1) * batches < 1500);
}

#[test]
fn every_tenth_iteration_is_evaluated() {
    assert_eq!(grpo_step(0), GrpoStep::LearnAndEvaluate);
    assert_eq!(grpo_step(1), GrpoStep::Learn);
    assert_eq!(grpo_step(490), GrpoStep::LearnAndEvaluate);
    assert_eq!(grpo_step(499), GrpoStep::Learn);
    assert_eq!(grpo_step(500), GrpoStep::Stop);
}

#[test]
fn the_standard_model_has_heads_of_sixty_four() {
    let config = GPTConfig::standard();
    assert_eq!(config.ff_dim, 4 * config.embed_dim);
    let dim = head_dim(config.embed_dim, config.n_head);
    assert_eq!(dim, 64);
    assert_eq!(attention_width(config.n_head, dim), config.embed_dim);
    assert_eq!(head_dim(10, 3), 3);
    assert_eq!(hidden_dim(5, None), 20);
    assert_eq!(hidden_dim(5, Some(7)), 7);
}

#[test]
fn rows_are_filled_up_to_the_longest() {
    let (ids, mask) = join_response(vec![1, 2], vec![3]);
    assert_eq!(ids, vec![1, 2, 3]);
    assert_eq!(mask, vec![0, 0, 1]);
    assert_eq!(pad_rows(&vec![vec![1], vec![]], 2), vec![vec![1, 0], vec![0, 0]]);
    let batch = batch_rows(
        vec!["p".to_string(), "q".to_string()],
        &vec![vec![7], vec![8, 9]],
        &vec![vec![1], vec![0, 1]],
    );
    assert_eq!((batch.rows, batch.cols), (2, 2));
    assert_eq!(batch.ids, vec![7, 0, 8, 9]);
    assert_eq!(batch.masks, vec![1, 0, 0, 1]);
    assert_eq!(batch.gts, vec![0, 0]);
    assert_eq!(batch.prompts, vec!["p", "q"]);
}

#[test]
fn every_prompt_gets_a_group_of_samples() {
    assert_eq!(GROUP_SIZE, 8);
    let prompts = vec!["1+1=".to_string(), "2+3=".to_string()];
    let mut texts = Vec::new();
    for i in 0..8 {
        texts.push(format!("1+1={}", i));
    }
    for i in 0..8 {
        texts.push(if i < 3 { "2+3=5".to_string() } else { format!("{} is 5", i) });
    }
    let samples = judge_group(&prompts, &vec![2, 5], &texts);
    assert_eq!(samples.len(), 16);
    for (r, sample) in samples.iter().enumerate() {
        assert_eq!(sample.prompt, prompts[r / 8]);
    }
    assert_eq!(samples[2].response, "2");
    assert_eq!(samples[8].response, "5");
    assert_eq!(samples[15].response, "7 is 5");
    let right: Vec<usize> = (0..16).filter(|&r| samples[r].reward).collect();
    assert_eq!(right, vec![2, 8, 9, 10, 11, 12, 13, 14, 15]);
    let mut expected = vec![1; 8];
    expected.extend(vec![8; 8]);
    assert_eq!(group_rewards(&samples), expected);
    assert!(judge_group(&vec![], &vec![], &vec![]).is_empty());
    assert!(group_rewards(&vec![]).is_empty());
}

#[test]
fn a_generated_text_starts_with_its_prompt() {
    let tokenizer = plain_tokenizer();
    let mut generation = Generation::start(&tokenizer, "hé", 10, 256);
    for id in [195, 255, 33] {
        generation.accept(id);
    }
    let text = generation.text(&tokenizer).unwrap();
    assert!(text.starts_with("hé"));
    assert_eq!(text, "hé\u{fffd}\u{fffd}!");
}

#[test]
fn a_chat_skips_headings_that_were_said() {
    let text = format!("{}4\n### Response:\n5", format_prompt("2+2= ### Resp"));
    assert_eq!(chat_response(&text), "\n4\n### Response:\n5");
}

#[test]
fn groups_can_have_any_size() {
    let prompts = vec!["1+1=".to_string(), "2+3=".to_string()];
    let texts: Vec<String> = ["1+1=2", "1+1=3", "2", "2+3=5", "2+3=", "2+3=4"]
        .iter()
        .map(|text| text.to_string())
        .collect();
    let samples = judge_groups(&prompts, &vec![2, 5], &texts, 3);
    let rewards: Vec<bool> = samples.iter().map(|sample| sample.reward).collect();
    assert_eq!(rewards, vec![true, false, true, true, false, false]);
    assert_eq!(samples[2].prompt, "1+1=");
    assert_eq!(samples[3].prompt, "2+3=");
    assert_eq!(rewards_in_groups(&samples, 3), vec![2, 2, 2, 1, 1, 1]);
    assert_eq!(rewards_in_groups(&samples, 6), vec![3; 6]);
    assert_eq!(rewards_in_groups(&samples, 1), vec![1, 0, 1, 1, 0, 0]);
    assert!(judge_groups(&prompts, &vec![2, 5], &vec![], 0).is_empty());
    assert!(rewards_in_groups(&vec![], 0).is_empty());
}

fn run(limit: usize) -> Vec<TokenID> {
    let mut generation = Generation::from_tokens(vec![3], 9, limit, 2);
    while let Some(window) = generation.window() {
        let sum: TokenID = window.iter().sum();
        generation.accept((2 * sum + 1) % 11);
    }
    generation.tokens().clone()
}

#[test]
fn a_smaller_limit_gives_a_prefix() {
    let long = run(20);
    assert_eq!(long, run(20));
    assert!(long.len() > 3);
    for limit in 0..20 {
        let short = run(limit);
        assert_eq!(short, long[..short.len()]);
        assert!(short.len() == limit + 1 || short == long);
    }
}

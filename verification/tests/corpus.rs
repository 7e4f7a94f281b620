use codebot::chunks::{chunk_ranges, ChunkScanner, CHUNK_SIZE};
use codebot::corpus::{merge_counts, ranges_per_task, train_bpe, WordCounts};
use codebot::tokenizer::{BPETokenizer, END_TOKEN};

fn scan(file: &[u8]) -> Vec<usize> {
    let mut scanner = ChunkScanner::new();
    while !scanner.is_done() {
        let start = scanner.offset();
        let end = (start + CHUNK_SIZE).min(file.len());
        scanner.step(&file[start..end], file.len());
    }
    scanner.into_positions()
}

fn listed(counts: &WordCounts) -> Vec<(String, usize)> {
    let mut all = Vec::new();
    let mut i = 0;
    while let Some((word, count)) = counts.get(i) {
        all.push((word.clone(), count));
        i += 1;
    }
    all
}

fn counted(text: &str) -> WordCounts {
    let mut counts = WordCounts::new();
    assert!(counts.count_chunk(text.as_bytes()));
    counts
}

#[test]
fn a_file_is_cut_after_each_end_token() {
    assert_eq!(scan(b"ab<|endoftext|>cd"), vec![0, 15, 17]);
    assert_eq!(scan(b"<|endoftext|><|endoftext|>"), vec![0, 13, 26]);
    assert_eq!(scan(b"abc"), vec![0, 3]);
    assert_eq!(scan(b""), vec![0]);
}

#[test]
fn end_tokens_across_blocks_are_found() {
    for start in 4080..4100 {
        let mut file = vec![b'a'; start];
        file.extend_from_slice(END_TOKEN.as_bytes());
        file.push(b'b');
        assert_eq!(scan(&file), vec![0, start + 13, start + 14]);
    }
    assert_eq!(scan(&vec![b'a'; CHUNK_SIZE]), vec![0, CHUNK_SIZE]);
    assert_eq!(scan(&vec![b'a'; 3 * CHUNK_SIZE]), vec![0, 3 * CHUNK_SIZE]);
}

#[test]
fn a_scanner_reads_on_where_a_token_may_have_started() {
    let mut scanner = ChunkScanner::new();
    scanner.step(&vec![b'a'; CHUNK_SIZE], 10000);
    assert_eq!(scanner.offset(), CHUNK_SIZE - 13);
    assert!(!scanner.is_done());
    scanner.step(b"aa", 4085);
    assert!(scanner.is_done());
    assert_eq!(scanner.into_positions(), vec![0, 4085]);
}

#[test]
fn chunks_make_up_the_file() {
    let file = "é<|endoftext|>ü<|endoftext|>ö".as_bytes();
    let ranges = chunk_ranges(&scan(file));
    let mut whole = Vec::new();
    for (begin, end) in &ranges {
        assert!(std::str::from_utf8(&file[*begin..*end]).is_ok());
        whole.extend_from_slice(&file[*begin..*end]);
    }
    assert_eq!(whole, file);
    assert_eq!(ranges, vec![(0, 15), (15, 30), (30, 32)]);
    assert!(chunk_ranges(&[]).is_empty());
    assert!(chunk_ranges(&[7]).is_empty());
}

#[test]
fn stretches_are_dealt_out_evenly() {
    assert_eq!(ranges_per_task(0, 4), 1);
    assert_eq!(ranges_per_task(32, 4), 1);
    assert_eq!(ranges_per_task(33, 4), 2);
    assert_eq!(ranges_per_task(100, 4), 4);
}

#[test]
fn words_are_counted_in_the_order_of_first_occurrence() {
    let mut counts = counted("a b a b a");
    assert_eq!(
        listed(&counts),
        vec![("a".to_string(), 1), (" b".to_string(), 2), (" a".to_string(), 2)]
    );
    assert_eq!(counts.size(), 9);
    assert!(counts.count_chunk(b"a"));
    assert_eq!(counts.get(0).unwrap().1, 2);
    counts.count_words(&vec![" b", "c"]);
    assert_eq!(counts.get(1).unwrap().1, 3);
    assert_eq!(counts.get(3).unwrap().1, 1);
    assert_eq!(counts.size(), 13);
}

#[test]
fn bytes_that_are_no_text_are_counted_as_replaced() {
    let mut counts = WordCounts::new();
    assert!(counts.count_chunk(&[b'a', 0xff]));
    assert_eq!(
        listed(&counts),
        vec![("a".to_string(), 1), ("\u{fffd}".to_string(), 1)]
    );
    assert_eq!(counts.size(), 4);
}

#[test]
fn counting_apart_is_counting_together() {
    let parts = vec![counted("a b"), counted(" b c a"), WordCounts::new(), counted("a")];
    let merged = merge_counts(&parts).unwrap();
    let mut together = WordCounts::new();
    for text in ["a b", " b c a", "a"] {
        assert!(together.count_chunk(text.as_bytes()));
    }
    assert_eq!(listed(&merged), listed(&together));
    assert_eq!(merged.size(), together.size());

    let mut one = counted("a b");
    one.absorb(&counted(" b c a"));
    one.absorb(&counted("a"));
    assert_eq!(listed(&one), listed(&together));
}

#[test]
fn the_most_frequent_pair_is_merged_first() {
    let counts = counted("ab ab ab");
    let rules: Vec<_> = train_bpe(&counts, 300).into_iter().collect();
    assert_eq!(rules, vec![((97, 98), 256), ((32, 256), 257)]);
    let one: Vec<_> = train_bpe(&counts, 258).into_iter().collect();
    assert_eq!(one, vec![((97, 98), 256)]);
    assert!(train_bpe(&counts, 257).is_empty());
    assert!(train_bpe(&counts, 0).is_empty());
}

#[test]
fn among_equals_the_largest_pair_is_merged_first() {
    let rules: Vec<_> = train_bpe(&counted("ab cd"), 300).into_iter().collect();
    assert_eq!(rules, vec![((99, 100), 256), ((97, 98), 257), ((32, 256), 258)]);
}

#[test]
fn repeated_letters_are_merged_without_overlap() {
    let rules: Vec<_> = train_bpe(&counted("aaaaa"), 300).into_iter().collect();
    assert_eq!(rules, vec![((97, 97), 256), ((256, 256), 257), ((257, 97), 258)]);
}

#[test]
fn words_that_become_equal_are_counted_together() {
    let mut counts = WordCounts::new();
    counts.count_words(&vec!["abc", "abc", "abd", "abd", "abd", "xab"]);
    let rules: Vec<_> = train_bpe(&counts, 300).into_iter().collect();
    assert_eq!(
        rules,
        vec![((97, 98), 256), ((256, 100), 257), ((256, 99), 258), ((120, 256), 259)]
    );
}

#[test]
fn the_order_of_words_does_not_matter() {
    let mut one = WordCounts::new();
    one.count_words(&vec!["abc", "bcd", "cde", "abc"]);
    let mut other = WordCounts::new();
    other.count_words(&vec!["cde", "abc", "abc", "bcd"]);
    let a: Vec<_> = train_bpe(&one, 270).into_iter().collect();
    let b: Vec<_> = train_bpe(&other, 270).into_iter().collect();
    assert_eq!(a, b);
}

#[test]
fn trained_rules_encode_and_decode() {
    let text = "fn main() { println!(\"hello hello\"); }\nfn other() { hello(); }\n";
    let rules = train_bpe(&counted(text), 290);
    assert!(rules.len() <= 33);
    assert!(rules.values().enumerate().all(|(i, id)| *id as usize == 256 + i));
    let tokenizer = BPETokenizer::new(&rules, END_TOKEN);
    let ids = tokenizer.encode(text);
    assert!(ids.len() < text.len());
    assert!(ids.iter().all(|id| *id < tokenizer.end_token_id()));
    assert_eq!(tokenizer.decode(&ids), text);
}

fn trained(file: &[u8], vocab_size: usize) -> Vec<((u16, u16), u16)> {
    let mut counts = WordCounts::new();
    for (begin, end) in chunk_ranges(&scan(file)) {
        assert!(counts.count_chunk(&file[begin..end]));
    }
    train_bpe(&counts, vocab_size).into_iter().collect()
}

#[test]
fn documents_stay_apart() {
    let docs = ["ab<|endoftext|>", "<|endoftext|>", "c <|endoftext<|endoftext|>"];
    let file = docs.concat();
    let found: Vec<&str> = chunk_ranges(&scan(file.as_bytes()))
        .into_iter()
        .map(|(begin, end)| &file[begin..end])
        .collect();
    assert_eq!(found, docs);
}

#[test]
fn order_and_repetition_of_documents_do_not_matter() {
    let docs = ["ab ab cd<|endoftext|>", "cd ab xy<|endoftext|>", " ab<|endoftext|>"];
    let file = docs.concat();
    let shuffled = [docs[2], docs[0], docs[1], docs[1], docs[2], docs[0]].concat();
    let rules = trained(file.as_bytes(), 280);
    assert!(rules.len() > 3);
    assert_eq!(rules, trained(shuffled.as_bytes(), 280));
}

#[test]
fn counts_of_any_scale_give_the_same_rules() {
    let words = vec!["abc", "abd", "abc", "bcd"];
    let mut one = WordCounts::new();
    one.count_words(&words);
    let mut three = WordCounts::new();
    for _ in 0..3 {
        three.count_words(&words);
    }
    let a: Vec<_> = train_bpe(&one, 270).into_iter().collect();
    let b: Vec<_> = train_bpe(&three, 270).into_iter().collect();
    assert_eq!(a, b);
}

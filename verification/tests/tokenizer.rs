use codebot::cbor::{load_ids, save_ids, save_rules};
use codebot::ordered::TokenID;
use codebot::pairs::{count_pairs, encode_text, merge};
use codebot::pattern::{pretokenize, try_pretokenize};
use codebot::tokenizer::{BPETokenizer, LoadError, END_TOKEN};
use indexmap::IndexMap;

fn sample_rules() -> IndexMap<(TokenID, TokenID), TokenID> {
    IndexMap::from([
        ((105, 115), 256),
        ((256, 32), 257),
        ((105, 110), 258),
        ((72, 101), 259),
    ])
}

#[test]
fn test_count_pairs() {
    let ids = [1, 2, 3, 1, 2];
    let mut counts = IndexMap::new();

    count_pairs(&ids, &mut counts, 1);
    assert_eq!(
        counts,
        IndexMap::from([((1, 2), 2), ((2, 3), 1), ((3, 1), 1),])
    );
}

#[test]
fn test_merge() {
    let ids = [1, 2, 3, 1, 2];
    let pair = (1, 2);
    let new_id = 4;
    let expected = [4, 3, 4];

    let merged = merge(&ids, pair, new_id);
    assert_eq!(merged, expected);
}

#[test]
fn test_pretokenize() {
    let text = "Hello! I'm fine.";
    let actual = pretokenize(text);

    assert_eq!(actual, ["Hello", "!", " I", "'m", " fine", ".",]);
}

#[test]
fn test_encode_decode() {
    let merge_rules: IndexMap<(TokenID, TokenID), TokenID> = IndexMap::from([
        ((105, 115), 256),
        ((256, 32), 257),
        ((105, 110), 258),
        ((72, 101), 259),
    ]);

    let text = "Hello世界😁";
    let tokenizer = BPETokenizer::new(&merge_rules, END_TOKEN);
    let ids = tokenizer.encode(text);

    let expected = vec![
        259, 108, 108, 111, 228, 184, 150, 231, 149, 140, 240, 159, 152, 129,
    ];
    assert_eq!(ids, expected);

    let decoded = tokenizer.decode(&ids);
    assert_eq!(decoded, text);
}

#[test]
fn test_split_encode_decode() {
    let merge_rules: IndexMap<(TokenID, TokenID), TokenID> = IndexMap::from([]);

    let text = "a<|endoftext|>b<|endoftext|>c<|endoftext|>d<|endoftext|>";
    let tokenizer = BPETokenizer::new(&merge_rules, END_TOKEN);
    let ids = tokenizer.encode(text);

    let expected = vec![97, 256, 98, 256, 99, 256, 100, 256];
    assert_eq!(ids, expected);

    let decoded = tokenizer.decode(&ids);
    assert_eq!(decoded, text);
}

#[test]
fn weights_add_up_in_the_order_of_first_occurrence() {
    let mut counts = IndexMap::new();
    count_pairs(&[5, 6, 5], &mut counts, 3);
    count_pairs(&[7, 5, 6], &mut counts, 10);
    let listed: Vec<_> = counts.into_iter().collect();
    assert_eq!(listed, vec![((5, 6), 13), ((6, 5), 3), ((7, 5), 10)]);

    let mut none = IndexMap::new();
    count_pairs(&[5], &mut none, 3);
    assert!(none.is_empty());
}

#[test]
fn equal_pairs_are_merged_from_the_left() {
    assert_eq!(merge(&[1, 1, 1], (1, 1), 2), vec![2, 1]);
    assert_eq!(merge(&[], (1, 1), 2), Vec::<TokenID>::new());
    assert_eq!(merge(&[3, 4], (1, 1), 2), vec![3, 4]);
}

#[test]
fn merged_tokens_expand_to_what_they_were() {
    let ids = [1, 2, 3, 1, 2, 2];
    let merged = merge(&ids, (1, 2), 9);
    let mut expanded = Vec::new();
    for id in &merged {
        if *id == 9 {
            expanded.push(1);
            expanded.push(2);
        } else {
            expanded.push(*id);
        }
    }
    assert_eq!(expanded, ids);
    assert!(merged.windows(2).all(|pair| pair != [1, 2]));
}

#[test]
fn text_becomes_one_token_for_each_byte() {
    assert_eq!(encode_text("aé"), vec![97, 195, 169]);
    assert_eq!(encode_text(""), Vec::<TokenID>::new());
}

#[test]
fn words_make_up_the_text() {
    let text = "  let x=42;\n\n\tdon't  stop ";
    let words = try_pretokenize(text).unwrap();
    assert_eq!(words.concat(), text);
    assert!(words.iter().all(|word| !word.is_empty()));
    assert_eq!(
        words,
        [" ", " let", " x", "=", "42", ";", "\n\n", "\t", "don", "'t", " ", " stop", " "]
    );
    assert_eq!(pretokenize(""), Vec::<&str>::new());
}

#[test]
fn tokens_are_found_again_after_saving() {
    let rules = sample_rules();
    let bytes = save_rules(&rules);
    let loaded = BPETokenizer::load_from(&bytes, END_TOKEN).unwrap();
    let made = BPETokenizer::new(&rules, END_TOKEN);
    let text = "This is in Hell<|endoftext|>His is";
    assert_eq!(loaded.end_token_id(), 260);
    assert_eq!(loaded.end_token_id, 260);
    assert_eq!(loaded.encode(text), made.encode(text));
    assert_eq!(loaded.decode(&loaded.encode(text)), text);
}

#[test]
fn rules_are_written_as_a_cbor_map() {
    let rules = IndexMap::from([((105, 115), 256)]);
    assert_eq!(
        save_rules(&rules),
        vec![0xa1, 0x82, 0x18, 0x69, 0x18, 0x73, 0x19, 0x01, 0x00]
    );
}

#[test]
fn tokens_are_written_as_a_cbor_array() {
    let ids: Vec<TokenID> = vec![97, 256, 3];
    let bytes = save_ids(&ids);
    assert_eq!(bytes, vec![0x83, 0x18, 0x61, 0x19, 0x01, 0x00, 0x03]);
    assert_eq!(load_ids(&bytes), Some(ids));
    assert_eq!(load_ids(&[0x61, 0x61]), None);
    assert_eq!(load_ids(&[]), None);
    assert_eq!(load_ids(&[0x81, 0x1a, 0x00, 0x01, 0x00, 0x00]), None);
}

#[test]
fn bytes_without_rules_are_refused() {
    assert_eq!(
        BPETokenizer::load_from(&[0x83, 0x01], END_TOKEN).err(),
        Some(LoadError::Malformed)
    );
    assert_eq!(
        BPETokenizer::load_from(&[], END_TOKEN).err(),
        Some(LoadError::Malformed)
    );
}

#[test]
fn rules_with_unknown_parts_are_refused() {
    let rules = IndexMap::from([((97, 300), 256)]);
    assert!(!BPETokenizer::rules_are_known(&rules));
    assert_eq!(
        BPETokenizer::load_from(&save_rules(&rules), END_TOKEN).err(),
        Some(LoadError::UnknownPart)
    );

    let too_early = IndexMap::from([((256, 97), 257), ((97, 98), 256)]);
    assert!(!BPETokenizer::rules_are_known(&too_early));
    assert!(BPETokenizer::rules_are_known(&sample_rules()));
}

#[test]
fn no_rules_are_rules_too() {
    let loaded = BPETokenizer::load_from(&[0xa0], END_TOKEN).unwrap();
    assert_eq!(loaded.encode("is"), vec![105, 115]);
    assert_eq!(loaded.end_token_id(), 256);
}

#[test]
fn rules_build_on_each_other() {
    let tokenizer = BPETokenizer::new(&sample_rules(), END_TOKEN);
    assert_eq!(tokenizer.encode("isin"), vec![256, 258]);
    assert_eq!(tokenizer.decode(&[257, 258, 259, 260]), "is inHe<|endoftext|>");
    let words = vec!["is", "He"];
    assert_eq!(tokenizer.encode_pretokens(&words), vec![256, 259]);
}

#[test]
fn parts_between_end_tokens_are_encoded_each_by_itself() {
    let tokenizer = BPETokenizer::new(&sample_rules(), END_TOKEN);
    let before = format!("is{}His{}", END_TOKEN, END_TOKEN);
    let after = "in<|endoftext|><|endoftext|>x";
    let whole = format!("{}{}", before, after);
    let mut apart = tokenizer.encode(&before);
    apart.extend(tokenizer.encode(after));
    assert_eq!(tokenizer.encode(&whole), apart);
    assert_eq!(apart, vec![256, 260, 72, 256, 260, 258, 260, 260, 120]);
    assert!(apart.len() <= whole.len());
}

#[test]
fn end_tokens_are_taken_from_the_left() {
    let tokenizer = BPETokenizer::new(&IndexMap::new(), "aa");
    assert_eq!(tokenizer.encode("aaa"), vec![256, 97]);
    assert_eq!(tokenizer.encode("baab"), vec![98, 256, 98]);
    assert_eq!(tokenizer.encode(""), Vec::<TokenID>::new());
    assert_eq!(tokenizer.decode(&[256, 97]), "aaa");
}

#[test]
fn an_empty_end_token_stands_around_every_character() {
    let tokenizer = BPETokenizer::new(&IndexMap::new(), "");
    let ids = tokenizer.encode("aé");
    assert_eq!(ids, vec![256, 97, 256, 195, 169, 256]);
    assert_eq!(tokenizer.decode(&ids), "aé");
    assert_eq!(tokenizer.encode(""), vec![256]);
    assert!(tokenizer.can_encode("aé"));
}

#[test]
fn encoding_can_be_tried() {
    let tokenizer = BPETokenizer::new(&sample_rules(), END_TOKEN);
    let text = "is it<|endoftext|>in";
    assert!(tokenizer.can_encode(text));
    assert_eq!(tokenizer.try_encode(text), Some(tokenizer.encode(text)));
}

#[test]
fn bytes_that_are_no_text_are_replaced() {
    let tokenizer = BPETokenizer::new(&IndexMap::new(), END_TOKEN);
    assert_eq!(tokenizer.decode(&[97, 255, 98]), "a\u{fffd}b");
    assert_eq!(tokenizer.decode(&[]), "");
}

#[test]
fn tokens_without_bytes_are_noticed() {
    let tokenizer = BPETokenizer::new(&sample_rules(), END_TOKEN);
    assert!(tokenizer.can_decode(&[0, 255, 259, 260]));
    assert!(!tokenizer.can_decode(&[97, 261]));
}

#[test]
fn an_end_token_is_one_token_between_two_texts() {
    let tokenizer = BPETokenizer::new(&sample_rules(), END_TOKEN);
    let texts = ["", "is", "He<|endoftext|>", "<|endoftext|>in", "a<|endo"];
    for a in texts {
        for b in texts {
            let mut expected = tokenizer.encode(a);
            expected.push(tokenizer.end_token_id());
            expected.extend(tokenizer.encode(b));
            assert_eq!(tokenizer.encode(&format!("{}{}{}", a, END_TOKEN, b)), expected);
        }
    }
    assert!(tokenizer.encode("").is_empty());
}

use codebot::parts::split_parts;
use codebot::search::{find_bytes, split_around, split_first};
use codebot::text::{
    chars_of, decimal_text, parse_i32, parse_usize, preview_text, strip_prompt, take_chars,
    text_after,
};

#[test]
fn bytes_are_found_where_they_first_stand() {
    assert_eq!(find_bytes(b"abcabc", b"bc"), Some(1));
    assert_eq!(find_bytes(b"abc", b"cb"), None);
    assert_eq!(find_bytes(b"abc", b""), Some(0));
    assert_eq!(find_bytes(b"ab", b"abc"), None);
    assert_eq!(find_bytes(b"aab", b"ab"), Some(1));
    assert_eq!(find_bytes(b"", b""), Some(0));
}

#[test]
fn texts_are_split_around_the_first_occurrence() {
    assert_eq!(split_around("a=b=c", "="), Some(("a", "b=c")));
    assert_eq!(split_around("éüé", "ü"), Some(("é", "é")));
    assert_eq!(split_around("abc", "x"), None);
    assert_eq!(split_around("abc", ""), Some(("", "abc")));
}

#[test]
fn the_first_character_is_split_off() {
    assert_eq!(split_first("abc"), ("a", "bc"));
    assert_eq!(split_first("é"), ("é", ""));
    assert_eq!(split_first("世界"), ("世", "界"));
    assert_eq!(split_first("😁!"), ("😁", "!"));
}

#[test]
fn previews_are_one_line() {
    assert_eq!(preview_text("a\nb", 80), "a\\nb");
    assert_eq!(preview_text("a\nb", 3), "a\\n...");
    assert_eq!(preview_text("a\nb", 4), "a\\nb");
    assert_eq!(preview_text("世界", 1), "世...");
    assert_eq!(preview_text("", 0), "");
    assert_eq!(preview_text("a", 0), "...");
}

#[test]
fn prompts_are_stripped() {
    assert_eq!(strip_prompt("1+1=2", "1+1="), "2");
    assert_eq!(strip_prompt("x1+1=2", "1+1="), "x1+1=2");
    assert_eq!(strip_prompt("é!", "é"), "!");
    assert_eq!(strip_prompt("a", "abc"), "a");
    assert_eq!(strip_prompt("abc", ""), "abc");
}

#[test]
fn what_follows_a_marker_is_found() {
    assert_eq!(text_after("a: b: c", ": "), "b: c");
    assert_eq!(text_after("abc", ":"), "abc");
}

#[test]
fn characters_are_taken_from_the_start() {
    assert_eq!(take_chars("世界!", 2), "世界");
    assert_eq!(take_chars("ab", 10), "ab");
    assert_eq!(take_chars("ab", 0), "");
    assert_eq!(chars_of("é!"), vec!['é', '!']);
}

#[test]
fn numbers_are_written_in_decimal() {
    assert_eq!(decimal_text(0), "0");
    assert_eq!(decimal_text(9), "9");
    assert_eq!(decimal_text(10), "10");
    assert_eq!(decimal_text(4294967295), "4294967295");
}

#[test]
fn numbers_are_read() {
    assert_eq!(parse_usize("20000"), Some(20000));
    assert_eq!(parse_usize("+5"), Some(5));
    assert_eq!(parse_usize("007"), Some(7));
    assert_eq!(parse_usize("-5"), None);
    assert_eq!(parse_usize(""), None);
    assert_eq!(parse_usize("+"), None);
    assert_eq!(parse_usize(" 5"), None);
    assert_eq!(parse_usize("18446744073709551616"), None);
    assert_eq!(parse_i32("-2147483648"), Some(-2147483648));
    assert_eq!(parse_i32("2147483647"), Some(2147483647));
    assert_eq!(parse_i32("2147483648"), None);
    assert_eq!(parse_i32("-2147483649"), None);
    assert_eq!(parse_i32("+12"), Some(12));
    assert_eq!(parse_i32("-"), None);
    assert_eq!(parse_i32("1a"), None);
    assert_eq!(parse_i32("٣"), None);
}

#[test]
fn numbers_are_read_as_the_standard_library_does() {
    for text in ["0", "-0", "+0", "00", "--1", "+-1", "1_000", "99999999999999999999", "-34"] {
        assert_eq!(parse_usize(text), text.parse::<usize>().ok());
        assert_eq!(parse_i32(text), text.parse::<i32>().ok());
    }
}

#[test]
fn texts_are_cut_at_end_tokens() {
    assert_eq!(
        split_parts("a<|endoftext|><|endoftext|>b", "<|endoftext|>"),
        vec![("a", true), ("", true), ("b", false)]
    );
    assert_eq!(split_parts("a;", ";"), vec![("a", true)]);
    assert_eq!(split_parts("aaa", "aa"), vec![("", true), ("a", false)]);
    assert_eq!(split_parts("", ";"), vec![]);
    assert_eq!(split_parts("aé", ""), vec![("", true), ("a", true), ("é", true)]);
    assert_eq!(split_parts("", ""), vec![("", true)]);
}

#[test]
fn parts_are_those_of_split_inclusive() {
    for (text, end) in [
        ("a;b;;c", ";"),
        (";", ";"),
        ("", ";"),
        ("ab", ""),
        ("", ""),
        ("aaaa", "aa"),
        ("xaaay", "aa"),
        ("世界", "界"),
    ] {
        let expected: Vec<(&str, bool)> = text
            .split_inclusive(end)
            .map(|part| match part.strip_suffix(end) {
                Some(stripped) => (stripped, true),
                None => (part, false),
            })
            .collect();
        assert_eq!(split_parts(text, end), expected);
    }
}

#[test]
fn two_end_tokens_cannot_overlap() {
    let end = codebot::tokenizer::END_TOKEN;
    assert_eq!(end.len(), 13);
    for d in 1..end.len() {
        assert_ne!(end[d..], end[..end.len() - d]);
    }
}

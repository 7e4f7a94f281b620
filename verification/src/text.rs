//! Text: decoding bytes, numbers in decimal, and small edits.

use vstd::prelude::*;
use vstd::string::StringExecFns;
use vstd::arithmetic::power::{lemma_pow0, lemma_pow1, lemma_pow_adds, pow};
use vstd::utf8::{
    decode_utf8, decode_utf8_encode_utf8, encode_utf8, encode_utf8_decode_utf8,
    encode_utf8_valid_utf8, valid_utf8,
};

use crate::search::{
    first_occurrence, is_first, lemma_encode_injective, lemma_encode_len, lemma_first_occurrence,
    lemma_occurs_in_bytes, lemma_occurs_in_text, lemma_prefix_boundary, matches_at, occurs_at,
    split_around,
};

verus! {

// ---------------------------------------------------------------------------
// Outside functions
// ---------------------------------------------------------------------------

/// What `String::from_utf8_lossy` makes of bytes that are not UTF-8: the text
/// with a replacement character in the place of what is not.
pub uninterp spec fn utf8_replaced(bytes: Seq<u8>) -> Seq<char>;

/// The text that bytes stand for, with replacement characters where they are
/// not UTF-8.
pub open spec fn lossy_text(bytes: Seq<u8>) -> Seq<char> {
    if valid_utf8(bytes) {
        decode_utf8(bytes)
    } else {
        utf8_replaced(bytes)
    }
}

/// `String::from_utf8_lossy`: bytes that are UTF-8 are decoded, and what other
/// bytes become is a function of the bytes, which is only named here. Only what
/// is not UTF-8 is replaced: a start of the bytes that is UTF-8 is decoded to a
/// start of the text.
#[verifier::external_body]
pub(crate) fn decode_lossy(bytes: &[u8]) -> (text: String)
    ensures
        valid_utf8(bytes@) ==> text@ == decode_utf8(bytes@),
        !valid_utf8(bytes@) ==> text@ == utf8_replaced(bytes@),
        forall|k: int|
            0 <= k <= bytes@.len() && valid_utf8(#[trigger] bytes@.take(k)) ==> decode_utf8(
                bytes@.take(k),
            ).is_prefix_of(text@),
{
    String::from_utf8_lossy(bytes).to_string()
}

/// `String::push`: the character comes last.
pub assume_specification[ String::push ](text: &mut String, c: char)
    ensures
        final(text)@ == old(text)@.push(c),
;

// ---------------------------------------------------------------------------
// Characters
// ---------------------------------------------------------------------------

/// The characters of a text.
pub fn chars_of(text: &str) -> (chars: Vec<char>)
    ensures
        chars@ == text@,
{
    let mut chars: Vec<char> = Vec::new();
    for c in iter: text.chars()
        invariant
            iter.seq() == text@,
            chars@ == text@.take(iter.index() as int),
    {
        chars.push(c);
    }
    assert(text@.take(text@.len() as int) == text@);
    chars
}

/// The first `n` characters as a text.
fn collect_chars(chars: &Vec<char>, n: usize) -> (text: String)
    requires
        n <= chars@.len(),
    ensures
        text@ == chars@.take(n as int),
{
    let mut text = String::new();
    for i in 0..n
        invariant
            n <= chars.len(),
            text@ == chars@.take(i as int),
    {
        text.push(chars[i]);
        assert(chars@.take(i + 1) == chars@.take(i as int).push(chars@[i as int]));
    }
    text
}

/// The first `n` characters of a text, or all of it where it has fewer.
pub fn take_chars(text: &str, n: usize) -> (start: String)
    ensures
        start@ == if n <= text@.len() {
            text@.take(n as int)
        } else {
            text@
        },
{
    let chars = chars_of(text);
    if n <= chars.len() {
        collect_chars(&chars, n)
    } else {
        text.to_owned()
    }
}

// ---------------------------------------------------------------------------
// Small edits
// ---------------------------------------------------------------------------

/// The text with each line break written as a backslash and an `n`.
pub open spec fn escaped(text: Seq<char>) -> Seq<char>
    decreases text.len(),
{
    if text.len() == 0 {
        text
    } else if text.last() == '\n' {
        escaped(text.drop_last()).push('\\').push('n')
    } else {
        escaped(text.drop_last()).push(text.last())
    }
}

/// The first `max_chars` characters of a text in one line, and three dots where
/// something was left out.
pub open spec fn preview(text: Seq<char>, max_chars: nat) -> Seq<char> {
    let line = escaped(text);
    if line.len() > max_chars {
        line.take(max_chars as int) + "..."@
    } else {
        line
    }
}

/// The text without a prefix, or the whole text where it has another start.
pub open spec fn without_prefix(text: Seq<char>, prefix: Seq<char>) -> Seq<char> {
    if occurs_at(text, prefix, 0) {
        text.skip(prefix.len() as int)
    } else {
        text
    }
}

/// What follows the first occurrence of a marker, or the whole text where there
/// is none.
pub open spec fn after_marker(text: Seq<char>, marker: Seq<char>) -> Seq<char> {
    match first_occurrence(text, marker) {
        Some(i) => text.skip(i + marker.len()),
        None => text,
    }
}

/// One line of at most `max_chars` characters that shows the start of a text.
pub fn preview_text(text: &str, max_chars: usize) -> (line: String)
    ensures
        line@ == preview(text@, max_chars as nat),
{
    let chars = chars_of(text);
    let mut escaped_chars: Vec<char> = Vec::new();
    for i in 0..chars.len()
        invariant
            chars@ == text@,
            escaped_chars@ == escaped(text@.take(i as int)),
    {
        proof {
            let longer = text@.take(i + 1);
            assert(longer.drop_last() == text@.take(i as int));
            assert(longer.last() == text@[i as int]);
        }
        if chars[i] == '\n' {
            escaped_chars.push('\\');
            escaped_chars.push('n');
        } else {
            escaped_chars.push(chars[i]);
        }
    }
    assert(text@.take(text@.len() as int) == text@);
    let ghost all = escaped_chars@;
    let shown: usize = if escaped_chars.len() > max_chars {
        max_chars
    } else {
        escaped_chars.len()
    };
    let mut line = collect_chars(&escaped_chars, shown);
    if escaped_chars.len() > max_chars {
        line.append("...");
    } else {
        assert(all.take(shown as int) == all);
    }
    line
}

/// `text` without `prefix`, if it starts with it.
pub fn strip_prompt(text: &str, prefix: &str) -> (rest: String)
    ensures
        rest@ == without_prefix(text@, prefix@),
{
    let bytes = text.as_bytes();
    let start = prefix.as_bytes();
    let starts = start.len() <= bytes.len() && matches_at(bytes, start, 0);
    proof {
        if occurs_at(text@, prefix@, 0) {
            lemma_occurs_in_bytes(text@, prefix@, 0);
            assert(text@.take(0) == Seq::<char>::empty());
            lemma_encode_len(text@.take(0));
        }
    }
    if starts {
        proof {
            let i = lemma_occurs_in_text(text@, prefix@, 0);
            lemma_encode_len(text@.take(i));
            assert(i == 0);
            assert(text@ == prefix@ + text@.skip(prefix@.len() as int)) by {
                assert(text@.subrange(0, prefix@.len() as int) == prefix@);
            }
            lemma_prefix_boundary(prefix@, text@.skip(prefix@.len() as int));
        }
        let (_, rest) = text.split_at(start.len());
        proof {
            lemma_encode_injective(rest@, text@.skip(prefix@.len() as int));
        }
        rest.to_owned()
    } else {
        text.to_owned()
    }
}

/// What follows the first occurrence of `marker` in `text`, or all of `text`.
pub fn text_after(text: &str, marker: &str) -> (rest: String)
    ensures
        rest@ == after_marker(text@, marker@),
{
    match split_around(text, marker) {
        Some((before, after)) => {
            assert(text@.skip((before@.len() + marker@.len()) as int) == after@);
            after.to_owned()
        },
        None => text.to_owned(),
    }
}

/// Stripping a prefix from a text that starts with it leaves what follows.
pub proof fn law_stripping_leaves_the_rest(prefix: Seq<char>, rest: Seq<char>)
    ensures
        without_prefix(prefix + rest, prefix) == rest,
{
    assert((prefix + rest).subrange(0, prefix.len() as int) == prefix);
    assert((prefix + rest).skip(prefix.len() as int) == rest);
}

/// A preview is one line.
pub proof fn law_preview_is_one_line(text: Seq<char>, max_chars: nat)
    ensures
        !preview(text, max_chars).contains('\n'),
        preview(text, max_chars).len() <= max_chars + 3,
{
    lemma_escaped(text);
    reveal_strlit("...");
    let line = preview(text, max_chars);
    if line.contains('\n') {
        let i = line.index_of('\n');
        if i < escaped(text).len() && i < max_chars {
            assert(escaped(text)[i] == '\n');
        }
    }
}

proof fn lemma_escaped(text: Seq<char>)
    ensures
        forall|i: int| 0 <= i < escaped(text).len() ==> #[trigger] escaped(text)[i] != '\n',
    decreases text.len(),
{
    if text.len() > 0 {
        let shorter = escaped(text.drop_last());
        lemma_escaped(text.drop_last());
        assert forall|i: int| 0 <= i < escaped(text).len() implies #[trigger] escaped(text)[i]
            != '\n' by {
            if i < shorter.len() {
                assert(shorter[i] != '\n');
            }
        }
    }
}

// ---------------------------------------------------------------------------
// Numbers in decimal
// ---------------------------------------------------------------------------

/// The character of a digit.
pub open spec fn digit_char(d: nat) -> char {
    (48 + d) as char
}

/// The decimal digits of a number, without leading zeros.
pub open spec fn decimal(n: nat) -> Seq<char>
    decreases n,
{
    if n < 10 {
        seq![digit_char(n)]
    } else {
        decimal(n / 10).push(digit_char(n % 10))
    }
}

/// The text is made of decimal digits, and of at least one.
pub open spec fn is_digits(text: Seq<char>) -> bool {
    &&& text.len() > 0
    &&& forall|i: int| 0 <= i < text.len() ==> '0' <= #[trigger] text[i] <= '9'
}

/// The number that decimal digits stand for.
pub open spec fn digits_value(text: Seq<char>) -> nat
    decreases text.len(),
{
    if text.len() == 0 {
        0
    } else {
        (10 * digits_value(text.drop_last()) + (text.last() as int - 48)) as nat
    }
}

/// The number without a sign, or with a plus sign, that a text stands for.
pub open spec fn unsigned_value(text: Seq<char>) -> Option<int> {
    if text.len() > 0 && text[0] == '+' && is_digits(text.skip(1)) {
        Some(digits_value(text.skip(1)) as int)
    } else if is_digits(text) {
        Some(digits_value(text) as int)
    } else {
        None
    }
}

/// The number with or without a sign that a text stands for.
pub open spec fn signed_value(text: Seq<char>) -> Option<int> {
    if text.len() > 0 && text[0] == '-' && is_digits(text.skip(1)) {
        Some(-(digits_value(text.skip(1)) as int))
    } else {
        unsigned_value(text)
    }
}

/// A number in decimal.
pub fn decimal_text(n: u32) -> (text: String)
    ensures
        text@ == decimal(n as nat),
    decreases n,
{
    let mut text = if n < 10 {
        String::new()
    } else {
        decimal_text(n / 10)
    };
    let last = (48u8 + (n % 10) as u8) as char;
    text.push(last);
    text
}

/// The value of the decimal digits from position `start` on, if there are any,
/// there is nothing else, and it is at most `limit`.
fn parse_digits(chars: &Vec<char>, start: usize, limit: u64) -> (value: Option<u64>)
    requires
        start <= chars.len(),
    ensures
        value == if is_digits(chars@.skip(start as int)) && digits_value(chars@.skip(start as int))
            <= limit {
            Some(digits_value(chars@.skip(start as int)) as u64)
        } else {
            None
        },
{
    let ghost digits = chars@.skip(start as int);
    let mut value: u64 = 0;
    let mut i = start;
    while i < chars.len()
        invariant
            start <= i <= chars.len(),
            digits == chars@.skip(start as int),
            value == digits_value(digits.take(i - start)),
            value <= limit,
            forall|j: int| 0 <= j < i - start ==> '0' <= #[trigger] digits[j] <= '9',
        decreases chars.len() - i,
    {
        let c = chars[i];
        assert(digits[i - start] == c);
        if c < '0' || c > '9' {
            return None;
        }
        let digit = (c as u32 - 48) as u64;
        proof {
            let longer = digits.take(i - start + 1);
            assert(longer.drop_last() == digits.take(i - start));
            assert(longer.last() == c);
            assert(digits_value(longer) == 10 * value + digit);
            if is_digits(digits) {
                lemma_digits_grow(digits, i - start + 1);
            }
        }
        if value > (u64::MAX - digit) / 10 || value * 10 + digit > limit {
            return None;
        }
        value = value * 10 + digit;
        i += 1;
    }
    assert(digits.take(i - start) == digits);
    if i == start {
        None
    } else {
        Some(value)
    }
}

/// A number does not get smaller when digits are added.
proof fn lemma_digits_grow(digits: Seq<char>, i: int)
    requires
        is_digits(digits),
        0 <= i <= digits.len(),
    ensures
        digits_value(digits.take(i)) <= digits_value(digits),
    decreases digits.len() - i,
{
    if i == digits.len() {
        assert(digits.take(i) == digits);
    } else {
        let longer = digits.take(i + 1);
        assert(longer.drop_last() == digits.take(i));
        assert(longer.last() == digits[i]);
        lemma_digits_grow(digits, i + 1);
    }
}

/// The `usize` that a text stands for.
pub fn parse_usize(text: &str) -> (value: Option<usize>)
    ensures
        value == match unsigned_value(text@) {
            Some(n) if n <= usize::MAX => Some(n as usize),
            _ => None,
        },
{
    let chars = chars_of(text);
    assert(chars@.skip(0) == chars@);
    if chars.len() > 0 && chars[0] == '+' {
        assert(!is_digits(chars@)) by {
            assert(chars@[0] == '+');
        }
        match parse_digits(&chars, 1, usize::MAX as u64) {
            Some(n) => Some(n as usize),
            None => None,
        }
    } else {
        match parse_digits(&chars, 0, usize::MAX as u64) {
            Some(n) => Some(n as usize),
            None => None,
        }
    }
}

/// The `i32` that a text stands for.
pub fn parse_i32(text: &str) -> (value: Option<i32>)
    ensures
        value == match signed_value(text@) {
            Some(n) if i32::MIN <= n <= i32::MAX => Some(n as i32),
            _ => None,
        },
{
    let chars = chars_of(text);
    assert(chars@.skip(0) == chars@);
    if chars.len() > 0 && chars[0] == '-' {
        assert(!is_digits(chars@)) by {
            assert(chars@[0] == '-');
        }
        match parse_digits(&chars, 1, 2147483648) {
            Some(n) => Some((0 - n as i64) as i32),
            None => None,
        }
    } else if chars.len() > 0 && chars[0] == '+' {
        assert(!is_digits(chars@)) by {
            assert(chars@[0] == '+');
        }
        match parse_digits(&chars, 1, 2147483647) {
            Some(n) => Some(n as i32),
            None => None,
        }
    } else {
        match parse_digits(&chars, 0, 2147483647) {
            Some(n) => Some(n as i32),
            None => None,
        }
    }
}

// ---------------------------------------------------------------------------
// Laws
// ---------------------------------------------------------------------------

/// Bytes that are UTF-8 are those of the text that they are read as, and the bytes
/// of a text are read as the text.
pub proof fn law_valid_bytes_are_read_as_written(bytes: Seq<u8>, text: Seq<char>)
    ensures
        valid_utf8(bytes) ==> encode_utf8(lossy_text(bytes)) == bytes,
        lossy_text(encode_utf8(text)) == text,
{
    encode_utf8_valid_utf8(text);
    encode_utf8_decode_utf8(text);
    if valid_utf8(bytes) {
        decode_utf8_encode_utf8(bytes);
    }
}

/// Two texts, one after the other, are written in one line as each by itself. A line
/// break becomes two characters, and a text without line breaks stays as it is.
pub proof fn law_only_line_breaks_are_escaped(a: Seq<char>, b: Seq<char>)
    ensures
        escaped(a + b) == escaped(a) + escaped(b),
        escaped(seq!['\n']) == seq!['\\', 'n'],
        !b.contains('\n') ==> escaped(b) == b,
    decreases b.len(),
{
    let one = seq!['\n'];
    assert(one.drop_last() == Seq::<char>::empty());
    assert(escaped(one.drop_last()) == Seq::<char>::empty());
    assert(escaped(one) == seq!['\\', 'n']);
    if b.len() == 0 {
        assert(a + b == a);
    } else {
        let shorter = b.drop_last();
        law_only_line_breaks_are_escaped(a, shorter);
        assert((a + b).drop_last() == a + shorter);
        assert((a + b).last() == b.last());
        if !b.contains('\n') {
            assert(b[b.len() - 1] != '\n');
            if shorter.contains('\n') {
                let i = shorter.index_of('\n');
                assert(b[i] == '\n');
            }
            assert(shorter.push(b.last()) == b);
        }
        if b.last() == '\n' {
            assert(escaped(a + b) == escaped(a + shorter).push('\\').push('n'));
            assert(escaped(b) == escaped(shorter).push('\\').push('n'));
        } else {
            assert(escaped(a + b) == escaped(a + shorter).push(b.last()));
            assert(escaped(b) == escaped(shorter).push(b.last()));
        }
    }
}

/// A preview shows a text that fits whole, and else its first characters and three
/// dots.
pub proof fn law_preview_shows_the_start(text: Seq<char>, max_chars: nat)
    ensures
        escaped(text).len() <= max_chars ==> preview(text, max_chars) == escaped(text),
        escaped(text).len() > max_chars ==> {
            &&& preview(text, max_chars).len() == max_chars + 3
            &&& forall|i: int|
                0 <= i < max_chars ==> #[trigger] preview(text, max_chars)[i] == escaped(text)[i]
            &&& forall|i: int|
                max_chars <= i < max_chars + 3 ==> #[trigger] preview(text, max_chars)[i] == '.'
        },
{
    reveal_strlit("...");
}

/// A text that has another start is kept whole.
pub proof fn law_other_start_is_kept(text: Seq<char>, prefix: Seq<char>)
    requires
        !prefix.is_prefix_of(text),
    ensures
        without_prefix(text, prefix) == text,
{
    if occurs_at(text, prefix, 0) {
        assert(text.subrange(0, prefix.len() as int) == prefix);
    }
}

/// What follows the first marker is what comes out, and all of a text without one.
pub proof fn law_text_after_the_first_marker(
    before: Seq<char>,
    marker: Seq<char>,
    after: Seq<char>,
)
    requires
        forall|j: int|
            0 <= j < before.len() ==> !#[trigger] occurs_at(before + marker + after, marker, j),
    ensures
        after_marker(before + marker + after, marker) == after,
        (forall|j: int| !#[trigger] occurs_at(after, marker, j)) ==> after_marker(after, marker)
            == after,
{
    let text = before + marker + after;
    let i = before.len() as int;
    assert(text.subrange(i, i + marker.len()) == marker);
    assert(is_first(text, marker, i));
    lemma_first_occurrence(text, marker, i);
    assert(text.skip(i + marker.len()) == after);
}

/// The decimal digits of a number stand for it, and only zero starts with a zero.
pub proof fn law_decimal_digits_stand_for_the_number(n: nat)
    ensures
        decimal(n).len() > 0,
        forall|i: int| 0 <= i < decimal(n).len() ==> '0' <= #[trigger] decimal(n)[i] <= '9',
        is_digits(decimal(n)),
        digits_value(decimal(n)) == n,
        decimal(n)[0] == '0' <==> n == 0,
        n < 10 <==> decimal(n).len() == 1,
    decreases n,
{
    let text = decimal(n);
    if n < 10 {
        assert(text.drop_last() == Seq::<char>::empty());
        assert(digits_value(text.drop_last()) == 0);
    } else {
        law_decimal_digits_stand_for_the_number(n / 10);
        assert(text.drop_last() == decimal(n / 10));
        assert(text[0] == decimal(n / 10)[0]);
        assert forall|i: int| 0 <= i < text.len() implies '0' <= #[trigger] text[i] <= '9' by {
            if i < text.len() - 1 {
                assert(text[i] == decimal(n / 10)[i]);
            }
        }
    }
}

/// Digits count by their place: those before others stand for ten times as much for
/// each digit behind them. One digit stands for its distance from zero.
pub proof fn law_digits_count_by_place(a: Seq<char>, b: Seq<char>, c: char)
    requires
        forall|i: int| 0 <= i < a.len() ==> '0' <= #[trigger] a[i] <= '9',
        forall|i: int| 0 <= i < b.len() ==> '0' <= #[trigger] b[i] <= '9',
        '0' <= c <= '9',
    ensures
        digits_value(a + b) == digits_value(a) * pow(10, b.len()) + digits_value(b),
        digits_value(seq![c]) == c as int - '0' as int,
    decreases b.len(),
{
    let one = seq![c];
    assert(one.drop_last() == Seq::<char>::empty());
    assert(digits_value(one.drop_last()) == 0);
    let x = digits_value(a);
    if b.len() == 0 {
        assert(a + b == a);
        lemma_pow0(10);
        assert(x * 1 == x) by (nonlinear_arith);
    } else {
        let shorter = b.drop_last();
        assert forall|i: int| 0 <= i < shorter.len() implies '0' <= #[trigger] shorter[i]
            <= '9' by {
            assert(b[i] == shorter[i]);
        }
        law_digits_count_by_place(a, shorter, c);
        assert((a + b).drop_last() == a + shorter);
        assert((a + b).last() == b.last());
        assert('0' <= b[b.len() - 1] <= '9');
        lemma_pow_adds(10, shorter.len(), 1);
        lemma_pow1(10);
        let p = pow(10, shorter.len());
        assert(x * (p * 10) == 10 * (x * p)) by (nonlinear_arith);
    }
}

/// A number may be written with a plus sign, and with a minus sign where it may be
/// negative. Zeros before it change nothing.
pub proof fn law_signs_are_read(digits: Seq<char>)
    requires
        digits.len() > 0,
        forall|i: int| 0 <= i < digits.len() ==> '0' <= #[trigger] digits[i] <= '9',
    ensures
        unsigned_value(digits) == Some(digits_value(digits) as int),
        unsigned_value(seq!['+'] + digits) == Some(digits_value(digits) as int),
        unsigned_value(seq!['-'] + digits) is None,
        signed_value(digits) == Some(digits_value(digits) as int),
        signed_value(seq!['+'] + digits) == Some(digits_value(digits) as int),
        signed_value(seq!['-'] + digits) == Some(-(digits_value(digits) as int)),
        digits_value(seq!['0'] + digits) == digits_value(digits),
{
    let plus = seq!['+'] + digits;
    let minus = seq!['-'] + digits;
    assert(plus.skip(1) == digits);
    assert(minus.skip(1) == digits);
    assert('0' <= digits[0] <= '9');
    assert(minus[0] == '-' && !is_digits(minus));
    let zero = seq!['0'];
    law_digits_count_by_place(zero, digits, '0');
    assert(0 * pow(10, digits.len()) == 0) by (nonlinear_arith);
}

/// Nothing but digits with at most a sign before them is a number.
pub proof fn law_other_text_is_no_number(text: Seq<char>, i: int)
    requires
        0 <= i < text.len(),
        text[i] < '0' || text[i] > '9',
        i == 0 ==> text.len() == 1 || (text[0] != '+' && text[0] != '-'),
    ensures
        unsigned_value(text) is None,
        signed_value(text) is None,
        unsigned_value(Seq::empty()) is None,
        signed_value(Seq::empty()) is None,
{
    assert(!is_digits(text));
    let rest = text.skip(1);
    if i > 0 {
        assert(rest[i - 1] == text[i]);
        assert(!is_digits(rest));
    }
}

} // verus!

//! Text as sequences of characters: trimming, upper-casing, decimal numbers and the order of
//! texts.
use vstd::prelude::*;

verus! {

/// `String::push` appends one character to the end of a string.
pub assume_specification[ String::push ](text: &mut String, ch: char)
    ensures
        final(text)@ == old(text)@.push(ch),
;

/// The characters with the Unicode property `White_Space`.
pub open spec fn white_space(ch: char) -> bool {
    ||| '\u{9}' <= ch <= '\u{d}'
    ||| ch == ' '
    ||| ch == '\u{85}'
    ||| ch == '\u{a0}'
    ||| ch == '\u{1680}'
    ||| '\u{2000}' <= ch <= '\u{200a}'
    ||| ch == '\u{2028}'
    ||| ch == '\u{2029}'
    ||| ch == '\u{202f}'
    ||| ch == '\u{205f}'
    ||| ch == '\u{3000}'
}

/// An ASCII decimal digit.
pub open spec fn digit(ch: char) -> bool {
    '0' <= ch <= '9'
}

/// An ASCII letter or digit.
pub open spec fn alphanumeric(ch: char) -> bool {
    digit(ch) || 'A' <= ch <= 'Z' || 'a' <= ch <= 'z'
}

/// The upper-case form of an ASCII letter; every other character stands for itself.
pub open spec fn upper(ch: char) -> char {
    if 'a' <= ch <= 'z' {
        (ch as u32 - 32) as char
    } else {
        ch
    }
}

/// `text` without its leading white space.
pub open spec fn trimmed_start(text: Seq<char>) -> Seq<char>
    decreases text.len(),
{
    if text.len() > 0 && white_space(text[0]) {
        trimmed_start(text.drop_first())
    } else {
        text
    }
}

/// `text` without its trailing white space.
pub open spec fn trimmed_end(text: Seq<char>) -> Seq<char>
    decreases text.len(),
{
    if text.len() > 0 && white_space(text.last()) {
        trimmed_end(text.drop_last())
    } else {
        text
    }
}

/// `text` without white space at either end.
pub open spec fn trimmed(text: Seq<char>) -> Seq<char> {
    trimmed_end(trimmed_start(text))
}

/// `text` with its ASCII letters in upper case.
pub open spec fn uppercased(text: Seq<char>) -> Seq<char> {
    text.map_values(|ch: char| upper(ch))
}

/// Whether every character of `text` is a digit.
pub open spec fn all_digits(text: Seq<char>) -> bool {
    forall|i: int| 0 <= i < text.len() ==> digit(#[trigger] text[i])
}

/// The number that a sequence of digits denotes.
pub open spec fn digits_value(text: Seq<char>) -> int
    decreases text.len(),
{
    if text.len() == 0 {
        0
    } else {
        digits_value(text.drop_last()) * 10 + (text.last() as int - '0' as int)
    }
}

/// The integer that `text` denotes: an optional sign, then one digit or more.
pub open spec fn integer_text(text: Seq<char>) -> Option<int> {
    let signed = text.len() > 0 && (text[0] == '-' || text[0] == '+');
    let digits = if signed {
        text.skip(1)
    } else {
        text
    };
    if digits.len() > 0 && all_digits(digits) {
        Some(
            if signed && text[0] == '-' {
                -digits_value(digits)
            } else {
                digits_value(digits)
            },
        )
    } else {
        None
    }
}

/// The integer that `text` denotes, where it is one of 64 bits.
pub open spec fn i64_text(text: Seq<char>) -> Option<i64> {
    match integer_text(text) {
        Some(value) => if i64::MIN <= value <= i64::MAX {
            Some(value as i64)
        } else {
            None
        },
        None => None,
    }
}

/// Whether `left` comes before `right` in the order of code points, both read from position
/// `at` on.
pub open spec fn text_before_from(left: Seq<char>, right: Seq<char>, at: int) -> bool
    decreases right.len() - at,
{
    if at >= right.len() {
        false
    } else if at >= left.len() {
        true
    } else if left[at] != right[at] {
        left[at] < right[at]
    } else {
        text_before_from(left, right, at + 1)
    }
}

/// Whether `left` comes before `right` in the lexicographic order of code points.
pub open spec fn text_before(left: Seq<char>, right: Seq<char>) -> bool {
    text_before_from(left, right, 0)
}

/// The characters of `text`, in order.
pub fn characters(text: &str) -> (chars: Vec<char>)
    ensures
        chars@ == text@,
{
    let mut chars: Vec<char> = Vec::new();
    for ch in it: text.chars()
        invariant
            chars@ == text@.take(it.index() as int),
            it.seq() == text@,
    {
        proof {
            assert(text@.take(it.index() as int + 1) =~= text@.take(it.index() as int).push(ch));
        }
        chars.push(ch);
    }
    proof {
        assert(text@.take(text@.len() as int) =~= text@);
    }
    chars
}

/// The text that the characters from `from` up to `to` spell.
pub fn text_of(chars: &Vec<char>, from: usize, to: usize) -> (text: String)
    requires
        from <= to <= chars@.len(),
    ensures
        text@ == chars@.subrange(from as int, to as int),
{
    let mut text = String::new();
    for i in from..to
        invariant
            from <= i <= to <= chars@.len(),
            text@ == chars@.subrange(from as int, i as int),
    {
        text.push(chars[i]);
        proof {
            assert(chars@.subrange(from as int, i + 1) =~= chars@.subrange(
                from as int,
                i as int,
            ).push(chars@[i as int]));
        }
    }
    text
}

/// Whether `ch` is white space.
pub fn is_white_space(ch: char) -> (answer: bool)
    ensures
        answer == white_space(ch),
{
    ('\u{9}' <= ch && ch <= '\u{d}') || ch == ' ' || ch == '\u{85}' || ch == '\u{a0}' || ch
        == '\u{1680}' || ('\u{2000}' <= ch && ch <= '\u{200a}') || ch == '\u{2028}' || ch
        == '\u{2029}' || ch == '\u{202f}' || ch == '\u{205f}' || ch == '\u{3000}'
}

/// Whether `ch` is a decimal digit.
pub fn is_digit(ch: char) -> (answer: bool)
    ensures
        answer == digit(ch),
{
    '0' <= ch && ch <= '9'
}

/// Whether `ch` is an ASCII letter or digit.
pub fn is_alphanumeric(ch: char) -> (answer: bool)
    ensures
        answer == alphanumeric(ch),
{
    is_digit(ch) || ('A' <= ch && ch <= 'Z') || ('a' <= ch && ch <= 'z')
}

/// The upper-case form of `ch`.
pub fn to_upper(ch: char) -> (result: char)
    ensures
        result == upper(ch),
{
    if 'a' <= ch && ch <= 'z' {
        (ch as u8 - 32) as char
    } else {
        ch
    }
}

/// `text` without white space at either end.
pub fn trim(text: &str) -> (result: String)
    ensures
        result@ == trimmed(text@),
{
    let chars = characters(text);
    let mut from: usize = 0;
    proof {
        assert(chars@.skip(0) =~= chars@);
    }
    while from < chars.len() && is_white_space(chars[from])
        invariant
            from <= chars@.len(),
            trimmed_start(chars@) == trimmed_start(chars@.skip(from as int)),
        decreases chars@.len() - from,
    {
        proof {
            assert(chars@.skip(from as int).drop_first() =~= chars@.skip(from + 1));
        }
        from += 1;
    }
    let ghost start = chars@.skip(from as int);
    let mut to: usize = chars.len();
    proof {
        assert(trimmed_start(chars@) == start);
        assert(start =~= chars@.subrange(from as int, to as int));
    }
    while from < to && is_white_space(chars[to - 1])
        invariant
            from <= to <= chars@.len(),
            trimmed_end(start) == trimmed_end(chars@.subrange(from as int, to as int)),
        decreases to,
    {
        proof {
            assert(chars@.subrange(from as int, to as int).drop_last() =~= chars@.subrange(
                from as int,
                to - 1,
            ));
            assert(chars@.subrange(from as int, to as int).last() == chars@[to - 1]);
        }
        to -= 1;
    }
    text_of(&chars, from, to)
}

/// `text` with its ASCII letters in upper case.
pub fn uppercase(text: &str) -> (result: String)
    ensures
        result@ == uppercased(text@),
{
    let chars = characters(text);
    let mut result = String::new();
    for i in 0..chars.len()
        invariant
            result@ == uppercased(chars@.take(i as int)),
    {
        result.push(to_upper(chars[i]));
        proof {
            assert(uppercased(chars@.take(i + 1)) =~= uppercased(chars@.take(i as int)).push(
                upper(chars@[i as int]),
            ));
        }
    }
    proof {
        assert(chars@.take(chars@.len() as int) =~= chars@);
    }
    result
}

/// A sequence of digits denotes no less than any of its beginnings does.
proof fn lemma_digits_grow(text: Seq<char>, length: int)
    requires
        0 <= length <= text.len(),
        all_digits(text),
    ensures
        0 <= digits_value(text.take(length)) <= digits_value(text),
    decreases text.len(),
{
    if length == text.len() {
        assert(text.take(length) =~= text);
        if length > 0 {
            lemma_digits_grow(text.drop_last(), length - 1);
        }
    } else {
        lemma_digits_grow(text.drop_last(), length);
        assert(text.drop_last().take(length) =~= text.take(length));
    }
}

/// A sequence of digits denotes no negative number.
pub proof fn lemma_digits_not_negative(text: Seq<char>)
    requires
        all_digits(text),
    ensures
        digits_value(text) >= 0,
{
    lemma_digits_grow(text, 0);
}

/// The number that the characters from `from` on denote, where they are one digit or more and
/// the number is no greater than `limit`.
fn bounded_digits(chars: &Vec<char>, from: usize, limit: u64) -> (result: Option<u64>)
    requires
        from <= chars@.len(),
    ensures
        result == ({
            let digits = chars@.skip(from as int);
            if digits.len() > 0 && all_digits(digits) && digits_value(digits) <= limit {
                Some(digits_value(digits) as u64)
            } else {
                None
            }
        }),
{
    if from == chars.len() {
        return None;
    }
    let ghost digits = chars@.skip(from as int);
    let mut value: u64 = 0;
    let mut i: usize = from;
    while i < chars.len()
        invariant
            from <= i <= chars@.len(),
            digits == chars@.skip(from as int),
            all_digits(digits.take(i - from)),
            value == digits_value(digits.take(i - from)),
            value <= limit,
        decreases chars@.len() - i,
    {
        let ch = chars[i];
        let ghost next = digits.take(i - from + 1);
        proof {
            assert(ch == digits[i - from]);
            assert(next.drop_last() =~= digits.take(i - from));
            assert(next.last() == ch);
        }
        if !is_digit(ch) {
            return None;
        }
        let wide: u128 = value as u128 * 10 + (ch as u8 - 48) as u128;
        if wide > limit as u128 {
            proof {
                if all_digits(digits) {
                    lemma_digits_grow(digits, i - from + 1);
                }
            }
            return None;
        }
        value = wide as u64;
        proof {
            assert forall|j: int| 0 <= j < next.len() implies digit(#[trigger] next[j]) by {
                if j < i - from {
                    assert(next[j] == digits.take(i - from)[j]);
                }
            }
        }
        i += 1;
    }
    proof {
        assert(digits.take(digits.len() as int) =~= digits);
    }
    Some(value)
}

/// Reads a decimal integer of 64 bits: an optional sign, then digits only.
pub fn parse_i64(text: &str) -> (result: Option<i64>)
    ensures
        result == i64_text(text@),
{
    let chars = characters(text);
    if chars.len() == 0 {
        return None;
    }
    proof {
        assert(chars@.skip(0) =~= chars@);
        if all_digits(chars@.skip(1)) {
            lemma_digits_grow(chars@.skip(1), 0);
        }
        if all_digits(chars@) {
            lemma_digits_grow(chars@, 0);
        }
    }
    if chars[0] == '-' {
        match bounded_digits(&chars, 1, 0x8000_0000_0000_0000) {
            Some(value) => Some((0 - value as i128) as i64),
            None => None,
        }
    } else {
        let from: usize = if chars[0] == '+' {
            1
        } else {
            0
        };
        match bounded_digits(&chars, from, 0x7fff_ffff_ffff_ffff) {
            Some(value) => Some(value as i64),
            None => None,
        }
    }
}

/// Reads a non-negative decimal integer of 63 bits: one digit or more and nothing else.
pub fn parse_digits(chars: &Vec<char>) -> (result: Option<i64>)
    requires
        all_digits(chars@),
        chars@.len() > 0,
    ensures
        result == i64_text(chars@),
{
    proof {
        assert(chars@.skip(0) =~= chars@);
        assert(digit(chars@[0]));
        lemma_digits_grow(chars@, 0);
    }
    match bounded_digits(chars, 0, 0x7fff_ffff_ffff_ffff) {
        Some(value) => Some(value as i64),
        None => None,
    }
}

/// Whether two texts hold the same characters.
pub fn same_text(left: &str, right: &str) -> (answer: bool)
    ensures
        answer == (left@ == right@),
{
    let left_chars = characters(left);
    let right_chars = characters(right);
    if left_chars.len() != right_chars.len() {
        return false;
    }
    for i in 0..left_chars.len()
        invariant
            left_chars@ == left@,
            right_chars@ == right@,
            left_chars@.len() == right_chars@.len(),
            forall|j: int| 0 <= j < i ==> left@[j] == right@[j],
    {
        if left_chars[i] != right_chars[i] {
            return false;
        }
    }
    proof {
        assert(left@ =~= right@);
    }
    true
}

/// What stands before `suffix` at the end of `text`, if `text` ends so.
pub fn without_suffix(text: &str, suffix: &str) -> (result: Option<String>)
    ensures
        match result {
            Some(rest) => text@ == rest@ + suffix@,
            None => forall|rest: Seq<char>| text@ != #[trigger] (rest + suffix@),
        },
{
    let chars = characters(text);
    let ending = characters(suffix);
    if chars.len() < ending.len() {
        return None;
    }
    let at: usize = chars.len() - ending.len();
    for i in 0..ending.len()
        invariant
            chars@ == text@,
            ending@ == suffix@,
            at + ending.len() == chars.len(),
            forall|j: int| 0 <= j < i ==> text@[at + j] == #[trigger] suffix@[j],
    {
        if chars[at + i] != ending[i] {
            proof {
                assert forall|rest: Seq<char>| text@ != #[trigger] (rest + suffix@) by {
                    if text@ == rest + suffix@ {
                        assert((rest + suffix@)[at + i] == suffix@[i as int]);
                    }
                }
            }
            return None;
        }
    }
    let rest = text_of(&chars, 0, at);
    proof {
        assert(text@ =~= rest@ + suffix@);
    }
    Some(rest)
}

/// Whether `text` begins with `prefix`.
pub fn has_prefix(text: &str, prefix: &str) -> (answer: bool)
    ensures
        answer == prefix@.is_prefix_of(text@),
{
    let chars = characters(text);
    let beginning = characters(prefix);
    if chars.len() < beginning.len() {
        return false;
    }
    for i in 0..beginning.len()
        invariant
            chars@ == text@,
            beginning@ == prefix@,
            beginning@.len() <= chars@.len(),
            forall|j: int| 0 <= j < i ==> text@[j] == prefix@[j],
    {
        if chars[i] != beginning[i] {
            proof {
                assert(prefix@.len() <= text@.len());
                assert(text@.subrange(0, prefix@.len() as int)[i as int] != prefix@[i as int]);
            }
            return false;
        }
    }
    proof {
        assert(prefix@ =~= text@.subrange(0, prefix@.len() as int));
    }
    true
}

/// Whether `left` comes before `right` in the lexicographic order of code points.
pub fn is_text_before(left: &str, right: &str) -> (answer: bool)
    ensures
        answer == text_before(left@, right@),
{
    let left_chars = characters(left);
    let right_chars = characters(right);
    let mut i: usize = 0;
    while i < left_chars.len() && i < right_chars.len() && left_chars[i] == right_chars[i]
        invariant
            left_chars@ == left@,
            right_chars@ == right@,
            i <= left@.len(),
            i <= right@.len(),
            text_before(left@, right@) == text_before_from(left@, right@, i as int),
        decreases left@.len() - i,
    {
        i += 1;
    }
    if i == right_chars.len() {
        false
    } else if i == left_chars.len() {
        true
    } else {
        left_chars[i] < right_chars[i]
    }
}

/// No text comes before itself.
pub proof fn text_order_irreflexive(text: Seq<char>)
    ensures
        !text_before(text, text),
{
    lemma_irreflexive_from(text, 0);
}

proof fn lemma_irreflexive_from(text: Seq<char>, at: int)
    ensures
        !text_before_from(text, text, at),
    decreases text.len() - at,
{
    if at < text.len() {
        lemma_irreflexive_from(text, at + 1);
    }
}

/// Of two different texts, one comes before the other.
pub proof fn text_order_total(left: Seq<char>, right: Seq<char>)
    ensures
        left == right || text_before(left, right) || text_before(right, left),
{
    assert(left.take(0) =~= right.take(0));
    lemma_total_from(left, right, 0);
}

proof fn lemma_total_from(left: Seq<char>, right: Seq<char>, at: int)
    requires
        0 <= at <= left.len(),
        at <= right.len(),
        left.take(at) == right.take(at),
    ensures
        left == right || text_before_from(left, right, at) || text_before_from(right, left, at),
    decreases left.len() - at,
{
    if at < left.len() && at < right.len() {
        if left[at] == right[at] {
            assert(left.take(at + 1) =~= left.take(at).push(left[at]));
            assert(right.take(at + 1) =~= right.take(at).push(right[at]));
            lemma_total_from(left, right, at + 1);
        }
    } else if at == left.len() && at == right.len() {
        assert(left.take(at) =~= left);
        assert(right.take(at) =~= right);
    }
}

/// The order of texts is transitive.
pub proof fn text_order_transitive(first: Seq<char>, second: Seq<char>, third: Seq<char>)
    requires
        text_before(first, second),
        text_before(second, third),
    ensures
        text_before(first, third),
{
    lemma_transitive_from(first, second, third, 0);
}

proof fn lemma_transitive_from(first: Seq<char>, second: Seq<char>, third: Seq<char>, at: int)
    requires
        0 <= at,
        text_before_from(first, second, at),
        text_before_from(second, third, at),
    ensures
        text_before_from(first, third, at),
    decreases third.len() - at,
{
    if at < first.len() && at < second.len() && at < third.len() && first[at] == second[at]
        && second[at] == third[at] {
        lemma_transitive_from(first, second, third, at + 1);
    }
}

proof fn lemma_trimmed_ends(text: Seq<char>)
    ensures
        trimmed(text).len() > 0 ==> !white_space(trimmed(text)[0]) && !white_space(
            trimmed(text).last(),
        ),
{
    lemma_trimmed_start(text);
    lemma_trimmed_end(trimmed_start(text));
}

proof fn lemma_trimmed_start(text: Seq<char>)
    ensures
        trimmed_start(text).len() > 0 ==> !white_space(trimmed_start(text)[0]),
    decreases text.len(),
{
    if text.len() > 0 && white_space(text[0]) {
        lemma_trimmed_start(text.drop_first());
    }
}

proof fn lemma_trimmed_end(text: Seq<char>)
    ensures
        trimmed_end(text).len() > 0 ==> !white_space(trimmed_end(text).last()),
        trimmed_end(text).len() > 0 ==> trimmed_end(text)[0] == text[0],
        trimmed_end(text).len() <= text.len(),
    decreases text.len(),
{
    if text.len() > 0 && white_space(text.last()) {
        lemma_trimmed_end(text.drop_last());
    }
}

/// Trimming a text twice changes nothing more.
pub proof fn trimmed_idempotent(text: Seq<char>)
    ensures
        trimmed(trimmed(text)) == trimmed(text),
{
    lemma_trimmed_ends(text);
}

/// Trimming and upper-casing can be done in either order.
pub proof fn trimmed_uppercased(text: Seq<char>)
    ensures
        trimmed(uppercased(text)) == uppercased(trimmed(text)),
{
    lemma_trimmed_start_uppercased(text);
    lemma_trimmed_end_uppercased(trimmed_start(text));
}

proof fn lemma_trimmed_start_uppercased(text: Seq<char>)
    ensures
        trimmed_start(uppercased(text)) == uppercased(trimmed_start(text)),
    decreases text.len(),
{
    if text.len() > 0 {
        assert(uppercased(text)[0] == upper(text[0]));
        assert(uppercased(text).drop_first() =~= uppercased(text.drop_first()));
        lemma_trimmed_start_uppercased(text.drop_first());
    }
}

proof fn lemma_trimmed_end_uppercased(text: Seq<char>)
    ensures
        trimmed_end(uppercased(text)) == uppercased(trimmed_end(text)),
    decreases text.len(),
{
    if text.len() > 0 {
        assert(uppercased(text).last() == upper(text.last()));
        assert(uppercased(text).drop_last() =~= uppercased(text.drop_last()));
        lemma_trimmed_end_uppercased(text.drop_last());
    }
}

/// The upper case of a character is an upper-case letter where the character is that letter in
/// either case: the two are 32 code points apart. What is no lower-case letter is its own upper
/// case.
pub proof fn upper_tells_letter(ch: char, letter: char)
    ensures
        'A' <= letter <= 'Z' ==> (upper(ch) == letter <==> ch == letter || ch as int
            == letter as int + 32),
        !('a' <= ch <= 'z') ==> upper(ch) == ch,
{
    if 'a' <= ch <= 'z' {
        assert(upper(ch) as int == ch as int - 32);
    }
}

/// Trimming takes nothing but white space from the ends, and leaves none there.
pub proof fn trimming_takes_white_space(text: Seq<char>)
    ensures
        exists|from: int, to: int| #[trigger] trims(text, from, to),
        trimmed(text).len() > 0 ==> !white_space(trimmed(text)[0]) && !white_space(
            trimmed(text).last(),
        ),
{
    let from = lemma_start_taken(text);
    let started = trimmed_start(text);
    let to = lemma_end_taken(started);
    lemma_trimmed_ends(text);
    assert(trims(text, from, from + to)) by {
        assert(text.subrange(from, text.len() as int).subrange(0, to) =~= text.subrange(
            from,
            from + to,
        ));
        assert forall|i: int| from + to <= i < text.len() implies white_space(
            #[trigger] text[i],
        ) by {
            assert(started[i - from] == text[i]);
        }
    }
}

/// Whether trimming leaves the characters from `from` up to `to`, and all others are white
/// space.
pub open spec fn trims(text: Seq<char>, from: int, to: int) -> bool {
    &&& 0 <= from <= to <= text.len()
    &&& trimmed(text) == text.subrange(from, to)
    &&& forall|i: int| 0 <= i < from ==> white_space(#[trigger] text[i])
    &&& forall|i: int| to <= i < text.len() ==> white_space(#[trigger] text[i])
}

proof fn lemma_start_taken(text: Seq<char>) -> (from: int)
    ensures
        0 <= from <= text.len(),
        trimmed_start(text) == text.subrange(from, text.len() as int),
        forall|i: int| 0 <= i < from ==> white_space(#[trigger] text[i]),
    decreases text.len(),
{
    if text.len() > 0 && white_space(text[0]) {
        let rest = text.drop_first();
        let from = lemma_start_taken(rest);
        assert(rest.subrange(from, rest.len() as int) =~= text.subrange(
            from + 1,
            text.len() as int,
        ));
        assert forall|i: int| 0 <= i < from + 1 implies white_space(#[trigger] text[i]) by {
            if i > 0 {
                assert(rest[i - 1] == text[i]);
            }
        }
        from + 1
    } else {
        assert(text =~= text.subrange(0, text.len() as int));
        0
    }
}

proof fn lemma_end_taken(text: Seq<char>) -> (to: int)
    ensures
        0 <= to <= text.len(),
        trimmed_end(text) == text.subrange(0, to),
        forall|i: int| to <= i < text.len() ==> white_space(#[trigger] text[i]),
    decreases text.len(),
{
    if text.len() > 0 && white_space(text.last()) {
        let rest = text.drop_last();
        let to = lemma_end_taken(rest);
        assert(rest.subrange(0, to) =~= text.subrange(0, to));
        assert forall|i: int| to <= i < text.len() implies white_space(#[trigger] text[i]) by {
            if i < rest.len() {
                assert(rest[i] == text[i]);
            }
        }
        to
    } else {
        assert(text =~= text.subrange(0, text.len() as int));
        text.len() as int
    }
}

/// Upper-casing changes each character by itself.
pub proof fn upper_case_is_by_character(text: Seq<char>)
    ensures
        uppercased(text).len() == text.len(),
        forall|i: int| 0 <= i < text.len() ==> #[trigger] uppercased(text)[i] == upper(text[i]),
{
}

/// Digits count by their place: what stands before others is worth a power of ten more.
pub proof fn digits_count_by_place(left: Seq<char>, right: Seq<char>)
    ensures
        digits_value(left + right) == digits_value(left) * vstd::arithmetic::power::pow(
            10,
            right.len(),
        ) + digits_value(right),
        digits_value(seq!['0']) == 0,
        digits_value(seq!['1']) == 1,
        digits_value(seq!['2']) == 2,
        digits_value(seq!['3']) == 3,
        digits_value(seq!['4']) == 4,
        digits_value(seq!['5']) == 5,
        digits_value(seq!['6']) == 6,
        digits_value(seq!['7']) == 7,
        digits_value(seq!['8']) == 8,
        digits_value(seq!['9']) == 9,
    decreases right.len(),
{
    reveal(vstd::arithmetic::power::pow);
    reveal_with_fuel(digits_value, 2);
    if right.len() == 0 {
        assert(left + right =~= left);
    } else {
        let shorter = right.drop_last();
        digits_count_by_place(left, shorter);
        assert((left + right).drop_last() =~= left + shorter);
        let power = vstd::arithmetic::power::pow(10, shorter.len());
        let value = digits_value(left);
        assert(vstd::arithmetic::power::pow(10, right.len()) == 10 * power);
        assert(value * power * 10 == value * (10 * power)) by (nonlinear_arith);
    }
}

/// Whether a text holds nothing but the characters from '0' to '9'.
pub open spec fn only_digits(text: Seq<char>) -> bool {
    forall|i: int| 0 <= i < text.len() ==> '0' <= #[trigger] text[i] <= '9'
}

/// Digits are read as the number that they denote, with the sign that stands before them, where
/// that number has 64 bits.
pub proof fn signed_digits_are_read(digits: Seq<char>)
    requires
        digits.len() > 0,
        only_digits(digits),
    ensures
        ({
            let value = digits_value(digits);
            &&& value <= i64::MAX ==> i64_text(digits) == Some(value as i64) && i64_text(
                seq!['+'] + digits,
            ) == Some(value as i64)
            &&& value > i64::MAX ==> i64_text(digits) is None && i64_text(
                seq!['+'] + digits,
            ) is None
            &&& value <= i64::MAX + 1 ==> i64_text(seq!['-'] + digits) == Some((-value) as i64)
            &&& value > i64::MAX + 1 ==> i64_text(seq!['-'] + digits) is None
        }),
{
    lemma_digits_not_negative(digits);
    assert(digit(digits[0]));
    assert((seq!['+'] + digits).skip(1) =~= digits);
    assert((seq!['-'] + digits).skip(1) =~= digits);
}

/// Nothing but digits, with a sign before them or none, is read as a number.
pub proof fn numbers_are_signed_digits(text: Seq<char>)
    requires
        i64_text(text) is Some,
    ensures
        ({
            ||| text.len() > 0 && only_digits(text) && i64_text(text)->0 == digits_value(text)
            ||| text.len() > 1 && text[0] == '+' && only_digits(text.skip(1)) && i64_text(text)->0
                == digits_value(text.skip(1))
            ||| text.len() > 1 && text[0] == '-' && only_digits(text.skip(1)) && i64_text(text)->0
                == -digits_value(text.skip(1))
        }),
{
}

/// Texts are ordered by the first character in which they differ; a text comes before one that
/// goes on where it ends, and not before itself or one that ends where it goes on.
pub proof fn first_difference_orders(left: Seq<char>, right: Seq<char>, k: int)
    requires
        0 <= k <= left.len(),
        k <= right.len(),
        left.take(k) == right.take(k),
    ensures
        k < left.len() && k < right.len() && left[k] < right[k] ==> text_before(left, right)
            && !text_before(right, left),
        k == left.len() && k < right.len() ==> text_before(left, right) && !text_before(
            right,
            left,
        ),
        k == left.len() && k == right.len() ==> !text_before(left, right),
{
    lemma_same_start(left, right, k);
    assert(right.take(k) == left.take(k));
    lemma_same_start(right, left, k);
}

proof fn lemma_same_start(left: Seq<char>, right: Seq<char>, k: int)
    requires
        0 <= k <= left.len(),
        k <= right.len(),
        left.take(k) == right.take(k),
    ensures
        text_before(left, right) == text_before_from(left, right, k),
    decreases k,
{
    if k > 0 {
        assert(left.take(k).take(k - 1) =~= left.take(k - 1));
        assert(right.take(k).take(k - 1) =~= right.take(k - 1));
        lemma_same_start(left, right, k - 1);
        assert(left.take(k)[k - 1] == left[k - 1] && right.take(k)[k - 1] == right[k - 1]);
        assert(text_before_from(left, right, k - 1) == text_before_from(left, right, k));
    }
}

/// Digits are the ten code points from 48 on, and letters with them the two runs of 26 from 65
/// and from 97 on; white space is the controls from tab to carriage return, the space, the next
/// line, and the spaces and separators outside ASCII. No letter or digit is white space.
pub proof fn characters_are_classed(ch: char)
    ensures
        digit(ch) <==> 48 <= ch as int <= 57,
        alphanumeric(ch) <==> 48 <= ch as int <= 57 || 65 <= ch as int <= 90 || 97 <= ch as int
            <= 122,
        ch as int <= 0xff ==> (white_space(ch) <==> 9 <= ch as int <= 13 || ch as int == 32 || ch
            as int == 0x85 || ch as int == 0xa0),
        ch as int > 0xff ==> (white_space(ch) <==> ch as int == 0x1680 || 0x2000 <= ch as int
            <= 0x200a || ch as int == 0x2028 || ch as int == 0x2029 || ch as int == 0x202f || ch
            as int == 0x205f || ch as int == 0x3000),
        !(white_space(ch) && alphanumeric(ch)),
{
}

} // verus!
